//! JSON values as the models send them: often inside code fences, with raw control characters in
//! their strings, or at the end of other text.
use vstd::prelude::*;
use vstd::slice::slice_subrange;
use crate::text::{
    blank, chars_of, control, is_blank, is_control, matches_chars, same_text, starts, ends,
    string_of, trim, trim_chars, views,
};

verus! {

/// A JSON value. A number keeps its text and, where it is one that fits, its integer. The
/// fields of an object have different names, and an object keeps how it is printed over several
/// lines.
#[derive(Debug, PartialEq, Eq)]
pub enum Json {
    Null,
    Bool(bool),
    Number { integer: Option<i64>, text: String },
    Text(String),
    List(Vec<Json>),
    Fields { fields: Vec<(String, Json)>, printed: String },
}

pub enum JsonView {
    Null,
    Bool(bool),
    Number { integer: Option<i64>, text: Seq<char> },
    Text(Seq<char>),
    List(Seq<JsonView>),
    Fields { fields: Seq<(Seq<char>, JsonView)>, printed: Seq<char> },
}

pub open spec fn json_view(j: Json) -> JsonView
    decreases j,
{
    match j {
        Json::Null => JsonView::Null,
        Json::Bool(b) => JsonView::Bool(b),
        Json::Number { integer, text } => JsonView::Number { integer, text: text@ },
        Json::Text(s) => JsonView::Text(s@),
        Json::List(v) => JsonView::List(
            Seq::new(
                v@.len(),
                |i: int|
                    if 0 <= i < v@.len() {
                        json_view(v@[i])
                    } else {
                        JsonView::Null
                    },
            ),
        ),
        Json::Fields { fields, printed } => JsonView::Fields {
            fields: Seq::new(
                fields@.len(),
                |i: int|
                    if 0 <= i < fields@.len() {
                        (fields@[i].0@, json_view(fields@[i].1))
                    } else {
                        (Seq::empty(), JsonView::Null)
                    },
            ),
            printed: printed@,
        },
    }
}

impl View for Json {
    type V = JsonView;

    open spec fn view(&self) -> JsonView {
        json_view(*self)
    }
}

// ---- reading and writing --------------------------------------------------------------------
#[verifier::external_type_specification]
#[verifier::external_body]
pub struct ExValue(serde_json::Value);

/// Turns a `serde_json::Value` into a value of the library, variant by variant. A number is
/// taken by `Number::as_i64` and by its text, an object by its fields and by what
/// `serde_json::to_string_pretty` makes of it.
#[verifier::external_body]
fn library_value(value: serde_json::Value) -> Json {
    match value {
        serde_json::Value::Null => Json::Null,
        serde_json::Value::Bool(b) => Json::Bool(b),
        serde_json::Value::Number(n) => Json::Number { integer: n.as_i64(), text: n.to_string() },
        serde_json::Value::String(s) => Json::Text(s),
        serde_json::Value::Array(v) => Json::List(v.into_iter().map(library_value).collect()),
        serde_json::Value::Object(m) => Json::Fields {
            printed: serde_json::to_string_pretty(&m).unwrap_or_default(),
            fields: m.into_iter().map(|(k, v)| (k, library_value(v))).collect(),
        },
    }
}

/// What `serde_json::from_str` makes of a text: the value, with the objects in it as
/// `serde_json::to_string_pretty` prints them, or the message of its error.
pub uninterp spec fn json_read(text: Seq<char>) -> Result<JsonView, Seq<char>>;

/// The outcome of reading by the characters of its value or message.
pub open spec fn outcome(r: Result<Json, String>) -> Result<JsonView, Seq<char>> {
    match r {
        Ok(v) => Ok(v@),
        Err(m) => Err(m@),
    }
}

/// `serde_json::from_str` into a `serde_json::Value`: whether the text is JSON, which value it
/// holds, how the objects in it are printed, and which message its error has, depend on the text
/// alone.
#[verifier::external_body]
pub(crate) fn read_json(text: &str) -> (r: Result<Json, String>)
    ensures
        outcome(r) == json_read(text@),
{
    match serde_json::from_str::<serde_json::Value>(text) {
        Ok(value) => Ok(library_value(value)),
        Err(error) => Err(error.to_string()),
    }
}

/// The JSON string literal of a text, as `serde_json` writes it.
pub uninterp spec fn json_quoted(text: Seq<char>) -> Seq<char>;

/// The text of a `serde_json::Value` that holds a string: its literal, with quotation marks and
/// escape sequences, depends on the string alone.
#[verifier::external_body]
pub(crate) fn quote_json(text: &str) -> (r: String)
    ensures
        r@ == json_quoted(text@),
{
    serde_json::Value::from(text).to_string()
}

// ---- looking into a value -------------------------------------------------------------------
/// The value of the first field of that name; nothing where the value is no object.
pub open spec fn field(j: JsonView, name: Seq<char>) -> Option<JsonView> {
    match j {
        JsonView::Fields { fields, .. } => field_from(fields, name, 0),
        _ => None,
    }
}

pub open spec fn field_from(v: Seq<(Seq<char>, JsonView)>, name: Seq<char>, i: int) -> Option<
    JsonView,
>
    decreases v.len() - i,
{
    if i < 0 || i >= v.len() {
        None
    } else if v[i].0 == name {
        Some(v[i].1)
    } else {
        field_from(v, name, i + 1)
    }
}

/// The text of a field that holds a string.
pub open spec fn text_field(j: JsonView, name: Seq<char>) -> Option<Seq<char>> {
    match field(j, name) {
        Some(JsonView::Text(s)) => Some(s),
        _ => None,
    }
}

/// The items of a field that holds a list.
pub open spec fn list_field(j: JsonView, name: Seq<char>) -> Option<Seq<JsonView>> {
    match field(j, name) {
        Some(JsonView::List(v)) => Some(v),
        _ => None,
    }
}

impl Json {
    pub fn get(&self, name: &str) -> (r: Option<&Json>)
        ensures
            match r {
                Some(v) => field(self@, name@) == Some(v@),
                None => field(self@, name@) is None,
            },
    {
        match self {
            Json::Fields { fields: v, .. } => {
                let ghost all = self@->fields;
                let mut i: usize = 0;
                while i < v.len()
                    invariant
                        i <= v@.len(),
                        all == self@->fields,
                        self@ is Fields,
                        *self is Fields,
                        self->fields == *v,
                        field(self@, name@) == field_from(all, name@, i as int),
                    decreases v@.len() - i,
                {
                    proof {
                        assert(all[i as int] == (v@[i as int].0@, json_view(v@[i as int].1)));
                    }
                    if same_text(v[i].0.as_str(), name) {
                        return Some(&v[i].1);
                    }
                    i += 1;
                }
                None
            },
            _ => None,
        }
    }

    pub fn as_text(&self) -> (r: Option<&String>)
        ensures
            match r {
                Some(s) => self@ == JsonView::Text(s@),
                None => !(self@ is Text),
            },
    {
        match self {
            Json::Text(s) => Some(s),
            _ => None,
        }
    }

    pub fn get_text(&self, name: &str) -> (r: Option<&String>)
        ensures
            match r {
                Some(s) => text_field(self@, name@) == Some(s@),
                None => text_field(self@, name@) is None,
            },
    {
        match self.get(name) {
            Some(v) => v.as_text(),
            None => None,
        }
    }

    pub fn get_list(&self, name: &str) -> (r: Option<&Vec<Json>>)
        ensures
            match r {
                Some(v) => list_field(self@, name@) == Some(views(v@)),
                None => list_field(self@, name@) is None,
            },
    {
        match self.get(name) {
            Some(Json::List(v)) => {
                proof {
                    assert(json_view(Json::List(*v))->List_0 =~= views(v@));
                }
                Some(v)
            },
            _ => None,
        }
    }
}

// ---- repairing ------------------------------------------------------------------------------
/// The text without the repetitions of `p` at its start.
pub open spec fn strip_leading(s: Seq<char>, p: Seq<char>) -> Seq<char>
    decreases s.len(),
{
    if p.len() > 0 && starts(s, p) {
        strip_leading(s.subrange(p.len() as int, s.len() as int), p)
    } else {
        s
    }
}

/// The text without the repetitions of `p` at its end.
pub open spec fn strip_trailing(s: Seq<char>, p: Seq<char>) -> Seq<char>
    decreases s.len(),
{
    if p.len() > 0 && ends(s, p) {
        strip_trailing(s.subrange(0, s.len() - p.len()), p)
    } else {
        s
    }
}

pub fn strip_leading_chars<'a>(s: &'a [char], p: &[char]) -> (r: &'a [char])
    requires
        p@.len() > 0,
    ensures
        r@ == strip_leading(s@, p@),
{
    let mut i: usize = 0;
    proof {
        assert(s@.subrange(0, s@.len() as int) =~= s@);
    }
    while matches_chars(s, p, i)
        invariant
            p@.len() > 0,
            i <= s@.len(),
            strip_leading(s@, p@) == strip_leading(s@.subrange(i as int, s@.len() as int), p@),
        decreases s@.len() - i,
    {
        proof {
            let rest = s@.subrange(i as int, s@.len() as int);
            assert(rest.subrange(0, p@.len() as int) =~= s@.subrange(i as int, i + p@.len()));
            assert(rest.subrange(p@.len() as int, rest.len() as int) =~= s@.subrange(
                i + p@.len(),
                s@.len() as int,
            ));
        }
        assert(i + p@.len() <= s@.len());
        let total: usize = s.len();
        i += p.len();
    }
    proof {
        let rest = s@.subrange(i as int, s@.len() as int);
        if starts(rest, p@) {
            assert(rest.subrange(0, p@.len() as int) =~= s@.subrange(i as int, i + p@.len()));
        }
    }
    slice_subrange(s, i, s.len())
}

fn strip_trailing_chars<'a>(s: &'a [char], p: &[char]) -> (r: &'a [char])
    requires
        p@.len() > 0,
    ensures
        r@ == strip_trailing(s@, p@),
{
    let mut n: usize = s.len();
    proof {
        assert(s@.subrange(0, s@.len() as int) =~= s@);
    }
    while p.len() <= n && matches_chars(s, p, n - p.len())
        invariant
            p@.len() > 0,
            n <= s@.len(),
            strip_trailing(s@, p@) == strip_trailing(s@.subrange(0, n as int), p@),
        decreases n,
    {
        proof {
            let rest = s@.subrange(0, n as int);
            assert(rest.subrange(n - p@.len(), n as int) =~= s@.subrange(n - p@.len(), n as int));
            assert(rest.subrange(0, n - p@.len()) =~= s@.subrange(0, n - p@.len()));
        }
        n -= p.len();
    }
    proof {
        let rest = s@.subrange(0, n as int);
        if ends(rest, p@) {
            assert(rest.subrange(n - p@.len(), n as int) =~= s@.subrange(n - p@.len(), n as int));
        }
    }
    slice_subrange(s, 0, n)
}

/// The text without white space and code fences around it.
pub open spec fn unfenced(text: Seq<char>) -> Seq<char> {
    trim(strip_trailing(strip_leading(strip_leading(trim(text), "```json"@), "```"@), "```"@))
}

pub fn normalize_jsonish(text: &str) -> (r: String)
    ensures
        r@ == unfenced(text@),
{
    proof {
        reveal_strlit("```json");
        reveal_strlit("```");
    }
    let all = chars_of(text);
    let long = chars_of("```json");
    let short = chars_of("```");
    let inner = strip_leading_chars(trim_chars(all.as_slice()), long.as_slice());
    let inner = strip_leading_chars(inner, short.as_slice());
    let inner = strip_trailing_chars(inner, short.as_slice());
    string_of(trim_chars(inner))
}

/// Where a scan of a JSON text stands: what it has written, and whether the next character
/// stands in a string and behind a backslash.
pub struct Scan {
    pub out: Seq<char>,
    pub in_string: bool,
    pub escaped: bool,
}

/// The upper-case hexadecimal digit.
pub open spec fn hex_digit(d: int) -> char {
    if d < 10 {
        (0x30 + d) as char
    } else {
        (0x37 + d) as char
    }
}

/// The escape sequence of a control character.
pub open spec fn control_escape(c: char) -> Seq<char> {
    if c == '\n' {
        seq!['\\', 'n']
    } else if c == '\r' {
        seq!['\\', 'r']
    } else if c == '\t' {
        seq!['\\', 't']
    } else {
        seq!['\\', 'u', '0', '0', hex_digit(c as int / 16), hex_digit(c as int % 16)]
    }
}

/// Takes in one character. Inside a string a control character is written as its escape
/// sequence; everything else is written as it is.
pub open spec fn scan_char(st: Scan, c: char) -> Scan {
    if st.escaped {
        Scan { out: st.out.push(c), in_string: st.in_string, escaped: false }
    } else if c == '\\' && st.in_string {
        Scan { out: st.out.push(c), in_string: true, escaped: true }
    } else if c == '"' {
        Scan { out: st.out.push(c), in_string: !st.in_string, escaped: false }
    } else if st.in_string && control(c) {
        Scan { out: st.out + control_escape(c), in_string: true, escaped: false }
    } else {
        Scan { out: st.out.push(c), in_string: st.in_string, escaped: false }
    }
}

pub open spec fn scan(s: Seq<char>) -> Scan
    decreases s.len(),
{
    if s.len() == 0 {
        Scan { out: Seq::empty(), in_string: false, escaped: false }
    } else {
        scan_char(scan(s.drop_last()), s.last())
    }
}

/// The text with the control characters inside its strings escaped.
pub open spec fn escaped(s: Seq<char>) -> Seq<char> {
    scan(s).out
}

fn hex_char(d: u32) -> (c: char)
    requires
        d < 16,
    ensures
        c == hex_digit(d as int),
{
    if d < 10 {
        (0x30 + d as u8) as char
    } else {
        (0x37 + d as u8) as char
    }
}

fn control_code(c: char) -> (n: u32)
    requires
        control(c),
    ensures
        n == c as int,
        n <= 0x9f,
{
    c as u32
}

pub fn escape_unescaped_json_control_chars(input: &str) -> (r: String)
    ensures
        r@ == escaped(input@),
{
    let all = chars_of(input);
    let mut out = String::new();
    let mut in_string = false;
    let mut escape = false;
    let mut i: usize = 0;
    while i < all.len()
        invariant
            i <= all@.len(),
            scan(all@.take(i as int)) == (Scan { out: out@, in_string, escaped: escape }),
        decreases all@.len() - i,
    {
        let c: char = all[i];
        let ghost before = out@;
        proof {
            assert(all@.take(i + 1).drop_last() =~= all@.take(i as int));
            assert(all@.take(i + 1).last() == c);
        }
        if escape {
            out.push(c);
            escape = false;
        } else if c == '\\' && in_string {
            out.push(c);
            escape = true;
        } else if c == '"' {
            out.push(c);
            in_string = !in_string;
        } else if in_string && is_control(c) {
            let n: u32 = control_code(c);
            out.push('\\');
            if c == '\n' {
                out.push('n');
            } else if c == '\r' {
                out.push('r');
            } else if c == '\t' {
                out.push('t');
            } else {
                out.push('u');
                out.push('0');
                out.push('0');
                out.push(hex_char(n / 16));
                out.push(hex_char(n % 16));
            }
            proof {
                assert(out@ =~= before + control_escape(c));
            }
        } else {
            out.push(c);
        }
        i += 1;
    }
    proof {
        assert(all@.take(i as int) =~= all@);
    }
    out
}

/// What a reading comes to, where the text may be read a second time after a repair.
pub open spec fn settled(
    first: Result<JsonView, Seq<char>>,
    second: Option<Result<JsonView, Seq<char>>>,
) -> Result<JsonView, Seq<char>> {
    match (first, second) {
        (Ok(v), _) => Ok(v),
        (Err(e), None) => Err(e),
        (Err(e), Some(Ok(v))) => Ok(v),
        (Err(e), Some(Err(f))) => Err(e + "；修复控制字符后仍失败："@ + f),
    }
}

/// Chooses between the outcomes of the two readings of a text.
pub fn settle_reading(first: Result<Json, String>, second: Option<Result<Json, String>>) -> (r:
    Result<Json, String>)
    ensures
        outcome(r) == settled(
            outcome(first),
            match second {
                Some(s) => Some(outcome(s)),
                None => None,
            },
        ),
{
    match first {
        Ok(v) => Ok(v),
        Err(e) => match second {
            None => Err(e),
            Some(Ok(v)) => Ok(v),
            Some(Err(f)) => {
                let mut m = e;
                m.append("；修复控制字符后仍失败：");
                m.append(f.as_str());
                Err(m)
            },
        },
    }
}

/// What is said of an answer without any text.
pub open spec fn empty_answer() -> Seq<char> {
    "AI 返回了空响应正文（模型可能将所有 token 消耗在思维链 reasoning 中，content 字段为空白，且无法从 reasoning 中提取到有效的 JSON）"@
}

/// The value that a model's answer holds.
pub open spec fn jsonish(text: Seq<char>) -> Result<JsonView, Seq<char>> {
    let inner = unfenced(text);
    let repaired = escaped(inner);
    if blank(text) {
        Err(empty_answer())
    } else {
        settled(
            json_read(inner),
            if json_read(inner) is Err && repaired != inner {
                Some(json_read(repaired))
            } else {
                None
            },
        )
    }
}

/// The text that is read for that value: what stands between the fences, or the same with its
/// control characters escaped where it can be read only so.
pub open spec fn readable(text: Seq<char>) -> Seq<char> {
    if json_read(unfenced(text)) is Ok {
        unfenced(text)
    } else {
        escaped(unfenced(text))
    }
}

fn read_jsonish(text: &str) -> (r: Result<(String, Json), String>)
    ensures
        match r {
            Ok(found) => jsonish(text@) == Ok::<JsonView, Seq<char>>(found.1@) && found.0@
                == readable(text@) && json_read(found.0@) == jsonish(text@),
            Err(m) => jsonish(text@) == Err::<JsonView, Seq<char>>(m@),
        },
{
    if is_blank(text) {
        return Err(
            "AI 返回了空响应正文（模型可能将所有 token 消耗在思维链 reasoning 中，content 字段为空白，且无法从 reasoning 中提取到有效的 JSON）".to_string(),
        );
    }
    let normalized = normalize_jsonish(text);
    let mut chosen = normalized.clone();
    let first = read_json(normalized.as_str());
    let mut second: Option<Result<Json, String>> = None;
    if first.is_err() {
        let repaired = escape_unescaped_json_control_chars(normalized.as_str());
        if !same_text(repaired.as_str(), normalized.as_str()) {
            second = Some(read_json(repaired.as_str()));
            chosen = repaired;
        }
    }
    match settle_reading(first, second) {
        Ok(value) => Ok((chosen, value)),
        Err(m) => Err(m),
    }
}

pub fn parse_jsonish_value(text: &str) -> (r: Result<Json, String>)
    ensures
        outcome(r) == jsonish(text@),
{
    match read_jsonish(text) {
        Ok(found) => Ok(found.1),
        Err(m) => Err(m),
    }
}

/// The text of the value that a model's answer holds, as it can be read.
pub fn readable_json(text: &str) -> (r: Result<String, String>)
    ensures
        match r {
            Ok(s) => jsonish(text@) is Ok && s@ == readable(text@) && json_read(s@) == jsonish(
                text@,
            ),
            Err(m) => jsonish(text@) == Err::<JsonView, Seq<char>>(m@),
        },
{
    match read_jsonish(text) {
        Ok(found) => Ok(found.0),
        Err(m) => Err(m),
    }
}

/// Whether an object or a list begins at a place and takes all the text from there on.
pub open spec fn json_starts(text: Seq<char>, k: int) -> bool {
    0 <= k < text.len() && (text[k] == '{' || text[k] == '[') && json_read(text.skip(k)) is Ok
}

/// Whether this is the first such place.
pub open spec fn json_starts_first(text: Seq<char>, k: int) -> bool {
    json_starts(text, k) && forall|j: int| 0 <= j < k ==> !#[trigger] json_starts(text, j)
}

/// The object or list that a text ends with, as a whole.
pub open spec fn trailing_json(text: Seq<char>) -> Option<Seq<char>> {
    if exists|k: int| json_starts_first(text, k) {
        Some(text.skip(choose|k: int| json_starts_first(text, k)))
    } else {
        None
    }
}

/// A model that puts everything into its reasoning often ends it with the JSON that was asked
/// for: this is that JSON.
pub fn extract_tailing_json_from_text(text: &str) -> (r: Option<String>)
    ensures
        match r {
            Some(s) => trailing_json(text@) == Some(s@) && exists|k: int|
                json_starts_first(text@, k) && s@ == text@.skip(k),
            None => trailing_json(text@) is None && forall|k: int| !json_starts(text@, k),
        },
{
    let all = chars_of(text);
    let mut k: usize = 0;
    while k < all.len()
        invariant
            k <= all@.len(),
            all@ == text@,
            forall|j: int| 0 <= j < k ==> !#[trigger] json_starts(text@, j),
        decreases all@.len() - k,
    {
        if all[k] == '{' || all[k] == '[' {
            let candidate = string_of(slice_subrange(all.as_slice(), k, all.len()));
            proof {
                assert(candidate@ =~= text@.skip(k as int));
            }
            if read_json(candidate.as_str()).is_ok() {
                proof {
                    assert(json_starts_first(text@, k as int));
                    let other = choose|k: int| json_starts_first(text@, k);
                    assert(json_starts(text@, other));
                    assert(other == k);
                }
                return Some(candidate);
            }
        }
        k += 1;
    }
    None
}

// ---- laws -----------------------------------------------------------------------------------
/// The rest of a scan from a state on.
pub open spec fn scan_from(st: Scan, s: Seq<char>) -> Scan
    decreases s.len(),
{
    if s.len() == 0 {
        st
    } else {
        scan_char(scan_from(st, s.drop_last()), s.last())
    }
}

proof fn lemma_scan_from_append(st: Scan, a: Seq<char>, b: Seq<char>)
    ensures
        scan_from(st, a + b) == scan_from(scan_from(st, a), b),
    decreases b.len(),
{
    if b.len() == 0 {
        assert(a + b =~= a);
    } else {
        assert((a + b).drop_last() =~= a + b.drop_last());
        lemma_scan_from_append(st, a, b.drop_last());
    }
}

proof fn lemma_scan_is_scan_from(s: Seq<char>)
    ensures
        scan(s) == scan_from(Scan { out: Seq::empty(), in_string: false, escaped: false }, s),
    decreases s.len(),
{
    if s.len() > 0 {
        lemma_scan_is_scan_from(s.drop_last());
    }
}

proof fn lemma_scan_one(st: Scan, c: char)
    ensures
        scan_from(st, seq![c]) == scan_char(st, c),
{
    assert(seq![c].drop_last() =~= Seq::<char>::empty());
    assert(scan_from(st, Seq::<char>::empty()) == st);
}

/// What the scan writes for a character is scanned as itself.
proof fn lemma_scan_written(st: Scan, c: char)
    ensures
        ({
            let next = scan_char(st, c);
            let written = next.out.skip(st.out.len() as int);
            &&& next.out == st.out + written
            &&& scan_from(st, written) == next
        }),
{
    let next = scan_char(st, c);
    if !st.escaped && c != '"' && c != '\\' && st.in_string && control(c) {
        let written = control_escape(c);
        assert(next.out.skip(st.out.len() as int) =~= written);
        let a = scan_char(st, '\\');
        assert(seq!['\\', 'n'] =~= seq!['\\'] + seq!['n']);
        assert(seq!['\\', 'r'] =~= seq!['\\'] + seq!['r']);
        assert(seq!['\\', 't'] =~= seq!['\\'] + seq!['t']);
        lemma_scan_one(st, '\\');
        if c == '\n' || c == '\r' || c == '\t' {
            lemma_scan_from_append(st, seq!['\\'], seq![written[1]]);
            lemma_scan_one(a, written[1]);
            assert(a.out.push(written[1]) =~= st.out + written);
        } else {
            let h = written[4];
            let l = written[5];
            assert(written =~= seq!['\\'] + seq!['u'] + seq!['0'] + seq!['0'] + seq![h] + seq![l]);
            let s1 = seq!['\\'];
            let s2 = s1 + seq!['u'];
            let s3 = s2 + seq!['0'];
            let s4 = s3 + seq!['0'];
            let s5 = s4 + seq![h];
            lemma_scan_from_append(st, s1, seq!['u']);
            lemma_scan_one(scan_from(st, s1), 'u');
            lemma_scan_from_append(st, s2, seq!['0']);
            lemma_scan_one(scan_from(st, s2), '0');
            lemma_scan_from_append(st, s3, seq!['0']);
            lemma_scan_one(scan_from(st, s3), '0');
            lemma_scan_from_append(st, s4, seq![h]);
            lemma_scan_one(scan_from(st, s4), h);
            lemma_scan_from_append(st, s5, seq![l]);
            lemma_scan_one(scan_from(st, s5), l);
            assert(!control(h) && h != '"' && h != '\\');
            assert(!control(l) && l != '"' && l != '\\');
            assert(scan_from(st, written).out =~= st.out + written);
        }
        assert(next.out =~= st.out + written);
    } else {
        assert(next.out.skip(st.out.len() as int) =~= seq![c]);
        assert(next.out =~= st.out + seq![c]);
        lemma_scan_one(st, c);
    }
}

proof fn lemma_escaped_twice(s: Seq<char>)
    ensures
        scan(escaped(s)) == scan(s),
    decreases s.len(),
{
    if s.len() == 0 {
    } else {
        let rest = s.drop_last();
        let before = scan(rest);
        let next = scan(s);
        lemma_escaped_twice(rest);
        lemma_scan_written(before, s.last());
        let written = next.out.skip(before.out.len() as int);
        let start = Scan { out: Seq::<char>::empty(), in_string: false, escaped: false };
        lemma_scan_is_scan_from(escaped(rest));
        lemma_scan_is_scan_from(escaped(s));
        lemma_scan_from_append(start, before.out, written);
    }
}

/// To escape the control characters of a text that is escaped already changes nothing.
pub proof fn law_escape_is_stable(s: Seq<char>)
    ensures
        escaped(escaped(s)) == escaped(s),
{
    lemma_escaped_twice(s);
}

} // verus!
