//! Whether the settings of a novel are complete, where the key of a model is kept, and what a
//! diagnosis of a model says.
use vstd::prelude::*;
use crate::domain::{opt_text, NovelSettings, NovelSettingsView};
use crate::text::{blank, is_blank, join, join_texts, lemma_views_push, same_text, views};

verus! {

// ---- settings -------------------------------------------------------------------------------
/// Whether everything that has to be set is set.
pub open spec fn is_complete(settings: NovelSettingsView) -> bool {
    !blank(settings.protagonist_name) && !blank(settings.bust) && !blank(settings.body_type)
        && !blank(settings.rewrite_mode)
}

/// The settings of a novel, where they are there and complete.
pub fn require_novel_settings(settings: Option<NovelSettings>) -> (r: Result<NovelSettings, String>)
    ensures
        match settings {
            Some(s) if is_complete(s@) => (r matches Ok(x) && x@ == s@),
            _ => (r matches Err(m) && m@ == "请先填写设定"@),
        },
        r matches Ok(x) ==> !blank(x@.protagonist_name) && !blank(x@.bust) && !blank(x@.body_type)
            && !blank(x@.rewrite_mode),
{
    match settings {
        Some(s) => {
            if is_blank(s.protagonist_name.as_str()) || is_blank(s.bust.as_str()) || is_blank(
                s.body_type.as_str(),
            ) || is_blank(s.rewrite_mode.as_str()) {
                return Err("请先填写设定".to_string());
            }
            Ok(s)
        },
        None => Err("请先填写设定".to_string()),
    }
}

// ---- keys of models -------------------------------------------------------------------------
/// Whether there is a key.
pub open spec fn has_text(key: Option<Seq<char>>) -> bool {
    key is Some && !blank(key->0)
}

fn is_key(key: &Option<String>) -> (r: bool)
    ensures
        r == has_text(opt_text(*key)),
{
    match key {
        Some(k) => !is_blank(k.as_str()),
        None => false,
    }
}

/// Whether the system and whether the database have a key.
pub fn api_key_storage_from_values(
    system_api_key: &Option<String>,
    db_api_key: &Option<String>,
) -> (r: (bool, bool))
    ensures
        r.0 == has_text(opt_text(*system_api_key)),
        r.1 == has_text(opt_text(*db_api_key)),
{
    (is_key(system_api_key), is_key(db_api_key))
}

/// A key and where it was found.
pub enum StoredKey {
    /// In the system: the database need not keep it.
    System(String),
    /// In the database only: it is to be moved into the system.
    Database(String),
}

/// The key to use: that of the system, else that of the database.
pub fn choose_stored_api_key(system_api_key: Option<String>, db_api_key: Option<String>) -> (r:
    Result<StoredKey, String>)
    ensures
        if has_text(opt_text(system_api_key)) {
            r matches Ok(StoredKey::System(k)) && k@ == system_api_key->0@
        } else if has_text(opt_text(db_api_key)) {
            r matches Ok(StoredKey::Database(k)) && k@ == db_api_key->0@
        } else {
            r matches Err(m) && m@ == "未保存 API Key，请填写 API Key 后点击保存。"@
        },
        r matches Ok(StoredKey::Database(k)) ==> !has_text(opt_text(system_api_key)) && !blank(k@),
        r matches Ok(StoredKey::System(k)) ==> !blank(k@),
        r is Err <==> !has_text(opt_text(system_api_key)) && !has_text(opt_text(db_api_key)),
{
    if let Some(k) = system_api_key {
        if !is_blank(k.as_str()) {
            return Ok(StoredKey::System(k));
        }
    }
    if let Some(k) = db_api_key {
        if !is_blank(k.as_str()) {
            return Ok(StoredKey::Database(k));
        }
    }
    Err("未保存 API Key，请填写 API Key 后点击保存。".to_string())
}

// ---- diagnosis ------------------------------------------------------------------------------
/// What one check of a model says.
#[derive(Debug, PartialEq, Eq)]
pub struct ModelDiagnosisCheck {
    pub name: String,
    pub status: String,
    pub message: String,
}

pub struct CheckView {
    pub name: Seq<char>,
    pub status: Seq<char>,
    pub message: Seq<char>,
}

impl View for ModelDiagnosisCheck {
    type V = CheckView;

    open spec fn view(&self) -> CheckView {
        CheckView { name: self.name@, status: self.status@, message: self.message@ }
    }
}

/// What the checks of a model say together.
#[derive(Debug, PartialEq, Eq)]
pub struct ModelDiagnosis {
    pub status: String,
    pub recommended_thinking_mode: Option<String>,
    pub checks: Vec<ModelDiagnosisCheck>,
}

pub fn diagnosis_check(name: &str, status: &str, message: &str) -> (r: ModelDiagnosisCheck)
    ensures
        r@ == (CheckView { name: name@, status: status@, message: message@ }),
{
    ModelDiagnosisCheck {
        name: name.to_string(),
        status: status.to_string(),
        message: message.to_string(),
    }
}

/// Whether a check has a status.
pub open spec fn any_status(checks: Seq<CheckView>, status: Seq<char>) -> bool {
    exists|i: int| 0 <= i < checks.len() && (#[trigger] checks[i]).status == status
}

/// The worst that the checks say.
pub open spec fn worst_status(checks: Seq<CheckView>) -> Seq<char> {
    if any_status(checks, "failed"@) {
        "failed"@
    } else if any_status(checks, "warning"@) {
        "warning"@
    } else {
        "ok"@
    }
}

fn has_status(checks: &[ModelDiagnosisCheck], status: &str) -> (r: bool)
    ensures
        r == any_status(views(checks@), status@),
{
    let ghost all = views(checks@);
    let mut i: usize = 0;
    while i < checks.len()
        invariant
            i <= checks@.len(),
            all == views(checks@),
            forall|k: int| 0 <= k < i ==> (#[trigger] all[k]).status != status@,
        decreases checks@.len() - i,
    {
        proof {
            assert(all[i as int] == checks@[i as int]@);
        }
        if same_text(checks[i].status.as_str(), status) {
            return true;
        }
        i += 1;
    }
    false
}

pub fn build_model_diagnosis(
    checks: Vec<ModelDiagnosisCheck>,
    recommended_thinking_mode: Option<&str>,
) -> (r: ModelDiagnosis)
    ensures
        r.status@ == worst_status(views(checks@)),
        r.checks@ == checks@,
        match recommended_thinking_mode {
            Some(mode) => (r.recommended_thinking_mode matches Some(x) && x@ == mode@),
            None => r.recommended_thinking_mode is None,
        },
{
    let status = if has_status(checks.as_slice(), "failed") {
        "failed"
    } else if has_status(checks.as_slice(), "warning") {
        "warning"
    } else {
        "ok"
    };
    let recommended = match recommended_thinking_mode {
        Some(mode) => Some(mode.to_string()),
        None => None,
    };
    ModelDiagnosis {
        status: status.to_string(),
        recommended_thinking_mode: recommended,
        checks,
    }
}

/// A check as a line of a log.
pub open spec fn check_line(check: CheckView) -> Seq<char> {
    "- "@ + check.name + " ["@ + check.status + "] "@ + check.message
}

pub open spec fn check_lines(checks: Seq<CheckView>) -> Seq<Seq<char>> {
    Seq::new(checks.len(), |i: int| check_line(checks[i]))
}

/// The status and the text with which a diagnosis is logged.
pub fn diagnosis_log(diagnosis: &ModelDiagnosis) -> (r: (String, String))
    ensures
        r.0@ == if diagnosis.status@ == "failed"@ {
            "error"@
        } else {
            "success"@
        },
        r.1@ == "诊断状态："@ + diagnosis.status@ + "\n"@ + join(
            check_lines(views(diagnosis.checks@)),
            "\n"@,
        ),
{
    let ghost goal = check_lines(views(diagnosis.checks@));
    let mut parts: Vec<String> = Vec::new();
    let mut i: usize = 0;
    while i < diagnosis.checks.len()
        invariant
            i <= diagnosis.checks@.len(),
            goal == check_lines(views(diagnosis.checks@)),
            views(parts@) == goal.take(i as int),
        decreases diagnosis.checks@.len() - i,
    {
        let check = &diagnosis.checks[i];
        let mut part = "- ".to_string();
        part.append(check.name.as_str());
        part.append(" [");
        part.append(check.status.as_str());
        part.append("] ");
        part.append(check.message.as_str());
        let ghost before = parts@;
        parts.push(part);
        proof {
            lemma_views_push(before, parts@.last());
            assert(views(diagnosis.checks@)[i as int] == check@);
            assert(views(parts@) =~= goal.take(i + 1));
        }
        i += 1;
    }
    proof {
        assert(goal.take(i as int) =~= goal);
    }
    let body = join_texts(parts.as_slice(), "\n");
    let mut text = "诊断状态：".to_string();
    text.append(diagnosis.status.as_str());
    text.append("\n");
    text.append(body.as_str());
    let status = if same_text(diagnosis.status.as_str(), "failed") {
        "error".to_string()
    } else {
        "success".to_string()
    };
    (status, text)
}

} // verus!
