//! What each list of words decides about a text.
use vstd::prelude::*;
use crate::analysis::asset_kinds;
use crate::decision::{
    known_statuses,
    yes_words,
};
use crate::dependency::dependency_prefixes;
use crate::keywords::{
    compliant_words,
    defect_words,
    gender_residue_words,
    harmless_words,
    legacy_subject_words,
    male_identity_words,
    male_reference_words,
    missing_categories,
    missing_content_words,
    name_residue_words,
    nickname_words,
    non_human_words,
    numbering_words,
    pronoun_claim_words,
    pronoun_words,
    protagonist_words,
    structural_categories,
    structural_words,
    title_defect_words,
};
use crate::names::arrows;
use crate::overrewrite::{
    neutral_terms,
    stereotype_phrases,
};
use crate::pronouns::male_family_words;
use crate::residue::{
    name_nouns,
    name_prefixes,
    name_suffixes,
};
use crate::review_filter::format_words;
use crate::text::{holds, holds_any};

verus! {

/// A claim speaks of something male that was left behind exactly if it has one of these words.
#[verifier::spinoff_prover]
pub proof fn law_claim_of_male_residue(text: Seq<char>)
    ensures
        holds_any(text, gender_residue_words()) <==> {
            ||| holds(text, "男性残留"@)
            ||| holds(text, "男性化"@)
            ||| holds(text, "男性姓名"@)
            ||| holds(text, "男性代词"@)
            ||| holds(text, "男性称谓"@)
            ||| holds(text, "男性身份"@)
            ||| holds(text, "男孩"@)
            ||| holds(text, "少年"@)
            ||| holds(text, "小子"@)
            ||| holds(text, "他"@)
            ||| holds(text, "残留"@)
            ||| holds(text, "未改写"@)
            ||| holds(text, "未修改"@)
            ||| holds(text, "没有修改"@)
            ||| holds(text, "没有被修改"@)
            ||| holds(text, "没有被替换"@)
            ||| holds(text, "仍为"@)
            ||| holds(text, "仍是"@)
            ||| holds(text, "仍然是"@)
        },
{
    let list = gender_residue_words();
    assert(list.len() == 19);
    assert(list[0] == "男性残留"@);
    assert(list[1] == "男性化"@);
    assert(list[2] == "男性姓名"@);
    assert(list[3] == "男性代词"@);
    assert(list[4] == "男性称谓"@);
    assert(list[5] == "男性身份"@);
    assert(list[6] == "男孩"@);
    assert(list[7] == "少年"@);
    assert(list[8] == "小子"@);
    assert(list[9] == "他"@);
    assert(list[10] == "残留"@);
    assert(list[11] == "未改写"@);
    assert(list[12] == "未修改"@);
    assert(list[13] == "没有修改"@);
    assert(list[14] == "没有被修改"@);
    assert(list[15] == "没有被替换"@);
    assert(list[16] == "仍为"@);
    assert(list[17] == "仍是"@);
    assert(list[18] == "仍然是"@);
}

/// A text speaks of a being that is not human exactly if it has one of these words.
#[verifier::spinoff_prover]
pub proof fn law_talk_of_other_beings(text: Seq<char>)
    ensures
        holds_any(text, non_human_words()) <==> {
            ||| holds(text, "非人"@)
            ||| holds(text, "非人生物"@)
            ||| holds(text, "动物"@)
            ||| holds(text, "灵兽"@)
            ||| holds(text, "妖兽"@)
            ||| holds(text, "凶兽"@)
            ||| holds(text, "神兽"@)
            ||| holds(text, "魔兽"@)
            ||| holds(text, "异兽"@)
            ||| holds(text, "古兽"@)
            ||| holds(text, "蛮兽"@)
            ||| holds(text, "荒兽"@)
            ||| holds(text, "器灵"@)
            ||| holds(text, "兽"@)
            ||| holds(text, "鸟"@)
            ||| holds(text, "鱼"@)
            ||| holds(text, "蛇"@)
            ||| holds(text, "龙"@)
            ||| holds(text, "虎"@)
            ||| holds(text, "狼"@)
            ||| holds(text, "猴"@)
            ||| holds(text, "猿"@)
            ||| holds(text, "熊"@)
            ||| holds(text, "牛"@)
            ||| holds(text, "马"@)
            ||| holds(text, "鹏"@)
            ||| holds(text, "蛟"@)
            ||| holds(text, "狐"@)
            ||| holds(text, "雀"@)
            ||| holds(text, "龟"@)
        },
{
    let list = non_human_words();
    assert(list.len() == 30);
    assert(list[0] == "非人"@);
    assert(list[1] == "非人生物"@);
    assert(list[2] == "动物"@);
    assert(list[3] == "灵兽"@);
    assert(list[4] == "妖兽"@);
    assert(list[5] == "凶兽"@);
    assert(list[6] == "神兽"@);
    assert(list[7] == "魔兽"@);
    assert(list[8] == "异兽"@);
    assert(list[9] == "古兽"@);
    assert(list[10] == "蛮兽"@);
    assert(list[11] == "荒兽"@);
    assert(list[12] == "器灵"@);
    assert(list[13] == "兽"@);
    assert(list[14] == "鸟"@);
    assert(list[15] == "鱼"@);
    assert(list[16] == "蛇"@);
    assert(list[17] == "龙"@);
    assert(list[18] == "虎"@);
    assert(list[19] == "狼"@);
    assert(list[20] == "猴"@);
    assert(list[21] == "猿"@);
    assert(list[22] == "熊"@);
    assert(list[23] == "牛"@);
    assert(list[24] == "马"@);
    assert(list[25] == "鹏"@);
    assert(list[26] == "蛟"@);
    assert(list[27] == "狐"@);
    assert(list[28] == "雀"@);
    assert(list[29] == "龟"@);
}

/// A text uses a nickname for anyone exactly if it has one of these words.
#[verifier::spinoff_prover]
pub proof fn law_talk_by_nickname(text: Seq<char>)
    ensures
        holds_any(text, nickname_words()) <==> {
            ||| holds(text, "这个家伙"@)
            ||| holds(text, "这家伙"@)
            ||| holds(text, "那个家伙"@)
            ||| holds(text, "那家伙"@)
            ||| holds(text, "家伙"@)
            ||| holds(text, "熊孩子"@)
            ||| holds(text, "孩子"@)
            ||| holds(text, "吃货"@)
            ||| holds(text, "小鬼"@)
        },
{
    let list = nickname_words();
    assert(list.len() == 9);
    assert(list[0] == "这个家伙"@);
    assert(list[1] == "这家伙"@);
    assert(list[2] == "那个家伙"@);
    assert(list[3] == "那家伙"@);
    assert(list[4] == "家伙"@);
    assert(list[5] == "熊孩子"@);
    assert(list[6] == "孩子"@);
    assert(list[7] == "吃货"@);
    assert(list[8] == "小鬼"@);
}

/// A text makes a person male exactly if it has one of these words, the pronoun among them.
#[verifier::spinoff_prover]
pub proof fn law_talk_of_a_man(text: Seq<char>)
    ensures
        holds_any(text, male_reference_words()) <==> {
            ||| holds(text, "少年"@)
            ||| holds(text, "男孩"@)
            ||| holds(text, "男子"@)
            ||| holds(text, "男人"@)
            ||| holds(text, "男性"@)
            ||| holds(text, "男儿"@)
            ||| holds(text, "男主"@)
            ||| holds(text, "公子"@)
            ||| holds(text, "少爷"@)
            ||| holds(text, "少主"@)
            ||| holds(text, "父亲"@)
            ||| holds(text, "兄弟"@)
            ||| holds(text, "哥哥"@)
            ||| holds(text, "弟弟"@)
            ||| holds(text, "小子"@)
            ||| holds(text, "汉子"@)
            ||| holds(text, "爷们"@)
            ||| holds(text, "郎君"@)
            ||| holds(text, "少年郎"@)
            ||| holds(text, "他"@)
            ||| holds(text, "他的"@)
            ||| holds(text, "他是"@)
        },
{
    let list = male_reference_words();
    assert(list.len() == 22);
    assert(list[0] == "少年"@);
    assert(list[1] == "男孩"@);
    assert(list[2] == "男子"@);
    assert(list[3] == "男人"@);
    assert(list[4] == "男性"@);
    assert(list[5] == "男儿"@);
    assert(list[6] == "男主"@);
    assert(list[7] == "公子"@);
    assert(list[8] == "少爷"@);
    assert(list[9] == "少主"@);
    assert(list[10] == "父亲"@);
    assert(list[11] == "兄弟"@);
    assert(list[12] == "哥哥"@);
    assert(list[13] == "弟弟"@);
    assert(list[14] == "小子"@);
    assert(list[15] == "汉子"@);
    assert(list[16] == "爷们"@);
    assert(list[17] == "郎君"@);
    assert(list[18] == "少年郎"@);
    assert(list[19] == "他"@);
    assert(list[20] == "他的"@);
    assert(list[21] == "他是"@);
}

/// A text makes a being male exactly if it has one of these words.
#[verifier::spinoff_prover]
pub proof fn law_talk_of_a_male(text: Seq<char>)
    ensures
        holds_any(text, male_identity_words()) <==> {
            ||| holds(text, "雄性"@)
            ||| holds(text, "公兽"@)
            ||| holds(text, "雄兽"@)
            ||| holds(text, "雄鸟"@)
            ||| holds(text, "公鸟"@)
            ||| holds(text, "雄龙"@)
            ||| holds(text, "公龙"@)
            ||| holds(text, "少年"@)
            ||| holds(text, "男孩"@)
            ||| holds(text, "男子"@)
            ||| holds(text, "男人"@)
            ||| holds(text, "男性"@)
            ||| holds(text, "男儿"@)
            ||| holds(text, "男主"@)
            ||| holds(text, "公子"@)
            ||| holds(text, "少爷"@)
            ||| holds(text, "少主"@)
            ||| holds(text, "父亲"@)
            ||| holds(text, "兄弟"@)
            ||| holds(text, "哥哥"@)
            ||| holds(text, "弟弟"@)
            ||| holds(text, "小子"@)
            ||| holds(text, "汉子"@)
            ||| holds(text, "爷们"@)
            ||| holds(text, "郎君"@)
            ||| holds(text, "少年郎"@)
        },
{
    let list = male_identity_words();
    assert(list.len() == 26);
    assert(list[0] == "雄性"@);
    assert(list[1] == "公兽"@);
    assert(list[2] == "雄兽"@);
    assert(list[3] == "雄鸟"@);
    assert(list[4] == "公鸟"@);
    assert(list[5] == "雄龙"@);
    assert(list[6] == "公龙"@);
    assert(list[7] == "少年"@);
    assert(list[8] == "男孩"@);
    assert(list[9] == "男子"@);
    assert(list[10] == "男人"@);
    assert(list[11] == "男性"@);
    assert(list[12] == "男儿"@);
    assert(list[13] == "男主"@);
    assert(list[14] == "公子"@);
    assert(list[15] == "少爷"@);
    assert(list[16] == "少主"@);
    assert(list[17] == "父亲"@);
    assert(list[18] == "兄弟"@);
    assert(list[19] == "哥哥"@);
    assert(list[20] == "弟弟"@);
    assert(list[21] == "小子"@);
    assert(list[22] == "汉子"@);
    assert(list[23] == "爷们"@);
    assert(list[24] == "郎君"@);
    assert(list[25] == "少年郎"@);
}

/// A claim is about pronouns exactly if it has one of these words.
#[verifier::spinoff_prover]
pub proof fn law_claim_on_pronouns(text: Seq<char>)
    ensures
        holds_any(text, pronoun_claim_words()) <==> {
            ||| holds(text, "代词"@)
            ||| holds(text, "人称"@)
            ||| holds(text, "称谓"@)
            ||| holds(text, "他"@)
            ||| holds(text, "她"@)
            ||| holds(text, "它"@)
        },
{
    let list = pronoun_claim_words();
    assert(list.len() == 6);
    assert(list[0] == "代词"@);
    assert(list[1] == "人称"@);
    assert(list[2] == "称谓"@);
    assert(list[3] == "他"@);
    assert(list[4] == "她"@);
    assert(list[5] == "它"@);
}

/// A text has a pronoun exactly if it has one of these words.
#[verifier::spinoff_prover]
pub proof fn law_text_with_pronouns(text: Seq<char>)
    ensures
        holds_any(text, pronoun_words()) <==> {
            ||| holds(text, "他"@)
            ||| holds(text, "她"@)
            ||| holds(text, "它"@)
            ||| holds(text, "牠"@)
        },
{
    let list = pronoun_words();
    assert(list.len() == 4);
    assert(list[0] == "他"@);
    assert(list[1] == "她"@);
    assert(list[2] == "它"@);
    assert(list[3] == "牠"@);
}

/// A text speaks of the protagonist exactly if it has one of these words.
#[verifier::spinoff_prover]
pub proof fn law_talk_of_the_protagonist(text: Seq<char>)
    ensures
        holds_any(text, protagonist_words()) <==> {
            ||| holds(text, "主角"@)
            ||| holds(text, "女主"@)
            ||| holds(text, "男主"@)
        },
{
    let list = protagonist_words();
    assert(list.len() == 3);
    assert(list[0] == "主角"@);
    assert(list[1] == "女主"@);
    assert(list[2] == "男主"@);
}

/// A claim says that a name was not replaced exactly if it has one of these words.
#[verifier::spinoff_prover]
pub proof fn law_claim_of_a_name_left(text: Seq<char>)
    ensures
        holds_any(text, name_residue_words()) <==> {
            ||| holds(text, "原名"@)
            ||| holds(text, "男性姓名"@)
            ||| holds(text, "姓名残留"@)
            ||| holds(text, "仍残留"@)
            ||| holds(text, "残留主角"@)
            ||| holds(text, "没有被替换"@)
            ||| holds(text, "未被替换"@)
            ||| holds(text, "未替换"@)
            ||| holds(text, "未改写"@)
        },
{
    let list = name_residue_words();
    assert(list.len() == 9);
    assert(list[0] == "原名"@);
    assert(list[1] == "男性姓名"@);
    assert(list[2] == "姓名残留"@);
    assert(list[3] == "仍残留"@);
    assert(list[4] == "残留主角"@);
    assert(list[5] == "没有被替换"@);
    assert(list[6] == "未被替换"@);
    assert(list[7] == "未替换"@);
    assert(list[8] == "未改写"@);
}

/// A category is one of missing content exactly if it has one of these parts.
#[verifier::spinoff_prover]
pub proof fn law_category_of_missing_content(text: Seq<char>)
    ensures
        holds_any(text, missing_categories()) <==> {
            ||| holds(text, "missing"@)
            ||| holds(text, "content"@)
            ||| holds(text, "omission"@)
        },
{
    let list = missing_categories();
    assert(list.len() == 3);
    assert(list[0] == "missing"@);
    assert(list[1] == "content"@);
    assert(list[2] == "omission"@);
}

/// A claim says that content is missing exactly if it has one of these words.
#[verifier::spinoff_prover]
pub proof fn law_claim_of_missing_content(text: Seq<char>)
    ensures
        holds_any(text, missing_content_words()) <==> {
            ||| holds(text, "内容缺失"@)
            ||| holds(text, "正文缺失"@)
            ||| holds(text, "缺句"@)
            ||| holds(text, "遗漏"@)
            ||| holds(text, "被删除"@)
            ||| holds(text, "删除了"@)
            ||| holds(text, "未保留"@)
            ||| holds(text, "没有保留"@)
        },
{
    let list = missing_content_words();
    assert(list.len() == 8);
    assert(list[0] == "内容缺失"@);
    assert(list[1] == "正文缺失"@);
    assert(list[2] == "缺句"@);
    assert(list[3] == "遗漏"@);
    assert(list[4] == "被删除"@);
    assert(list[5] == "删除了"@);
    assert(list[6] == "未保留"@);
    assert(list[7] == "没有保留"@);
}

/// A remark is about the numbering of titles exactly if it has one of these words.
#[verifier::spinoff_prover]
pub proof fn law_remark_on_numbering(text: Seq<char>)
    ensures
        holds_any(text, numbering_words()) <==> {
            ||| holds(text, "编号"@)
            ||| holds(text, "章号"@)
            ||| holds(text, "数字"@)
            ||| holds(text, "不匹配"@)
            ||| holds(text, "不对应"@)
            ||| holds(text, "矛盾"@)
            ||| holds(text, "统一"@)
            ||| holds(text, "重编号"@)
            ||| holds(text, "补零"@)
        },
{
    let list = numbering_words();
    assert(list.len() == 9);
    assert(list[0] == "编号"@);
    assert(list[1] == "章号"@);
    assert(list[2] == "数字"@);
    assert(list[3] == "不匹配"@);
    assert(list[4] == "不对应"@);
    assert(list[5] == "矛盾"@);
    assert(list[6] == "统一"@);
    assert(list[7] == "重编号"@);
    assert(list[8] == "补零"@);
}

/// A remark names a real defect of a title exactly if it has one of these words.
#[verifier::spinoff_prover]
pub proof fn law_remark_on_a_bad_title(text: Seq<char>)
    ensures
        holds_any(text, title_defect_words()) <==> {
            ||| holds(text, "标题缺失"@)
            ||| holds(text, "标题为空"@)
            ||| holds(text, "空标题"@)
            ||| holds(text, "标题重复"@)
            ||| holds(text, "串章"@)
            ||| holds(text, "边界"@)
            ||| holds(text, "截断"@)
            ||| holds(text, "乱码"@)
            ||| holds(text, "不完整"@)
        },
{
    let list = title_defect_words();
    assert(list.len() == 9);
    assert(list[0] == "标题缺失"@);
    assert(list[1] == "标题为空"@);
    assert(list[2] == "空标题"@);
    assert(list[3] == "标题重复"@);
    assert(list[4] == "串章"@);
    assert(list[5] == "边界"@);
    assert(list[6] == "截断"@);
    assert(list[7] == "乱码"@);
    assert(list[8] == "不完整"@);
}

/// A text says that all is well exactly if it has one of these words.
#[verifier::spinoff_prover]
pub proof fn law_word_of_praise(text: Seq<char>)
    ensures
        holds_any(text, compliant_words()) <==> {
            ||| holds(text, "符合规则"@)
            ||| holds(text, "符合要求"@)
            ||| holds(text, "正确保留"@)
            ||| holds(text, "确认保留"@)
            ||| holds(text, "无需修改"@)
            ||| holds(text, "不需要修改"@)
            ||| holds(text, "各项通过"@)
            ||| holds(text, "基本通过"@)
            ||| holds(text, "基本合格"@)
            ||| holds(text, "整体合格"@)
            ||| holds(text, "全部合格"@)
            ||| holds(text, "审查通过"@)
            ||| holds(text, "审查点基本通过"@)
            ||| holds(text, "保持良好"@)
            ||| holds(text, "表现良好"@)
            ||| holds(text, "文风自然"@)
            ||| holds(text, "章节完整"@)
            ||| holds(text, "修改正确"@)
            ||| holds(text, "替换正确"@)
            ||| holds(text, "完整性均符合"@)
            ||| holds(text, "正确且一致"@)
            ||| holds(text, "均已正确"@)
            ||| holds(text, "未见残留"@)
            ||| holds(text, "未发现问题"@)
            ||| holds(text, "未发现阻断"@)
            ||| holds(text, "不存在阻断"@)
            ||| holds(text, "无阻断问题"@)
            ||| holds(text, "没有阻断问题"@)
            ||| holds(text, "符合原文"@)
            ||| holds(text, "符合情节"@)
            ||| holds(text, "符合设定"@)
            ||| holds(text, "补充适当"@)
            ||| holds(text, "确认即可"@)
            ||| holds(text, "保持即可"@)
            ||| holds(text, "维持原样"@)
        },
{
    let list = compliant_words();
    assert(list.len() == 35);
    assert(list[0] == "符合规则"@);
    assert(list[1] == "符合要求"@);
    assert(list[2] == "正确保留"@);
    assert(list[3] == "确认保留"@);
    assert(list[4] == "无需修改"@);
    assert(list[5] == "不需要修改"@);
    assert(list[6] == "各项通过"@);
    assert(list[7] == "基本通过"@);
    assert(list[8] == "基本合格"@);
    assert(list[9] == "整体合格"@);
    assert(list[10] == "全部合格"@);
    assert(list[11] == "审查通过"@);
    assert(list[12] == "审查点基本通过"@);
    assert(list[13] == "保持良好"@);
    assert(list[14] == "表现良好"@);
    assert(list[15] == "文风自然"@);
    assert(list[16] == "章节完整"@);
    assert(list[17] == "修改正确"@);
    assert(list[18] == "替换正确"@);
    assert(list[19] == "完整性均符合"@);
    assert(list[20] == "正确且一致"@);
    assert(list[21] == "均已正确"@);
    assert(list[22] == "未见残留"@);
    assert(list[23] == "未发现问题"@);
    assert(list[24] == "未发现阻断"@);
    assert(list[25] == "不存在阻断"@);
    assert(list[26] == "无阻断问题"@);
    assert(list[27] == "没有阻断问题"@);
    assert(list[28] == "符合原文"@);
    assert(list[29] == "符合情节"@);
    assert(list[30] == "符合设定"@);
    assert(list[31] == "补充适当"@);
    assert(list[32] == "确认即可"@);
    assert(list[33] == "保持即可"@);
    assert(list[34] == "维持原样"@);
}

/// A text has a phrase that only sounds like a defect exactly if it has one of these.
#[verifier::spinoff_prover]
pub proof fn law_harmless_phrase(text: Seq<char>)
    ensures
        holds_any(text, harmless_words()) <==> {
            ||| holds(text, "无需修改"@)
            ||| holds(text, "不需要修改"@)
            ||| holds(text, "无需修正"@)
            ||| holds(text, "不需要修正"@)
            ||| holds(text, "无需替换"@)
            ||| holds(text, "不需要替换"@)
        },
{
    let list = harmless_words();
    assert(list.len() == 6);
    assert(list[0] == "无需修改"@);
    assert(list[1] == "不需要修改"@);
    assert(list[2] == "无需修正"@);
    assert(list[3] == "不需要修正"@);
    assert(list[4] == "无需替换"@);
    assert(list[5] == "不需要替换"@);
}

/// A text names a defect exactly if it has one of these words.
#[verifier::spinoff_prover]
pub proof fn law_word_of_a_defect(text: Seq<char>)
    ensures
        holds_any(text, defect_words()) <==> {
            ||| holds(text, "关键错误"@)
            ||| holds(text, "存在错误"@)
            ||| holds(text, "违反"@)
            ||| holds(text, "不符合"@)
            ||| holds(text, "未遵守"@)
            ||| holds(text, "误改"@)
            ||| holds(text, "缺失"@)
            ||| holds(text, "缺少"@)
            ||| holds(text, "遗漏"@)
            ||| holds(text, "不一致"@)
            ||| holds(text, "矛盾"@)
            ||| holds(text, "冲突"@)
            ||| holds(text, "断裂"@)
            ||| holds(text, "错乱"@)
            ||| holds(text, "空正文"@)
            ||| holds(text, "不完整"@)
            ||| holds(text, "截断"@)
            ||| holds(text, "未女性化"@)
            ||| holds(text, "没有女性化"@)
            ||| holds(text, "仍为男性"@)
            ||| holds(text, "仍使用男性"@)
            ||| holds(text, "错误地"@)
            ||| holds(text, "误将"@)
            ||| holds(text, "未改"@)
            ||| holds(text, "未替换"@)
            ||| holds(text, "破坏"@)
            ||| holds(text, "突然跳跃"@)
            ||| holds(text, "突然重置"@)
            ||| holds(text, "必须修改"@)
            ||| holds(text, "需要修改"@)
            ||| holds(text, "需要修正"@)
            ||| holds(text, "必须修正"@)
            ||| holds(text, "应当修改"@)
            ||| holds(text, "应修改"@)
            ||| holds(text, "需修改"@)
            ||| holds(text, "应当修正"@)
            ||| holds(text, "应修正"@)
            ||| holds(text, "需修正"@)
            ||| holds(text, "应当替换"@)
            ||| holds(text, "应替换"@)
            ||| holds(text, "需替换"@)
        },
{
    let list = defect_words();
    assert(list.len() == 41);
    assert(list[0] == "关键错误"@);
    assert(list[1] == "存在错误"@);
    assert(list[2] == "违反"@);
    assert(list[3] == "不符合"@);
    assert(list[4] == "未遵守"@);
    assert(list[5] == "误改"@);
    assert(list[6] == "缺失"@);
    assert(list[7] == "缺少"@);
    assert(list[8] == "遗漏"@);
    assert(list[9] == "不一致"@);
    assert(list[10] == "矛盾"@);
    assert(list[11] == "冲突"@);
    assert(list[12] == "断裂"@);
    assert(list[13] == "错乱"@);
    assert(list[14] == "空正文"@);
    assert(list[15] == "不完整"@);
    assert(list[16] == "截断"@);
    assert(list[17] == "未女性化"@);
    assert(list[18] == "没有女性化"@);
    assert(list[19] == "仍为男性"@);
    assert(list[20] == "仍使用男性"@);
    assert(list[21] == "错误地"@);
    assert(list[22] == "误将"@);
    assert(list[23] == "未改"@);
    assert(list[24] == "未替换"@);
    assert(list[25] == "破坏"@);
    assert(list[26] == "突然跳跃"@);
    assert(list[27] == "突然重置"@);
    assert(list[28] == "必须修改"@);
    assert(list[29] == "需要修改"@);
    assert(list[30] == "需要修正"@);
    assert(list[31] == "必须修正"@);
    assert(list[32] == "应当修改"@);
    assert(list[33] == "应修改"@);
    assert(list[34] == "需修改"@);
    assert(list[35] == "应当修正"@);
    assert(list[36] == "应修正"@);
    assert(list[37] == "需修正"@);
    assert(list[38] == "应当替换"@);
    assert(list[39] == "应替换"@);
    assert(list[40] == "需替换"@);
}

/// A sentence on an old name is about the protagonist exactly if it has one of these words.
#[verifier::spinoff_prover]
pub proof fn law_subject_of_an_old_name(text: Seq<char>)
    ensures
        holds_any(text, legacy_subject_words()) <==> {
            ||| holds(text, "她原本"@)
            ||| holds(text, "她原来"@)
            ||| holds(text, "她本来"@)
            ||| holds(text, "她曾"@)
            ||| holds(text, "她旧"@)
            ||| holds(text, "她的原名"@)
            ||| holds(text, "她的旧名"@)
            ||| holds(text, "主角"@)
            ||| holds(text, "女主"@)
            ||| holds(text, "原名"@)
            ||| holds(text, "旧名"@)
            ||| holds(text, "同名"@)
        },
{
    let list = legacy_subject_words();
    assert(list.len() == 12);
    assert(list[0] == "她原本"@);
    assert(list[1] == "她原来"@);
    assert(list[2] == "她本来"@);
    assert(list[3] == "她曾"@);
    assert(list[4] == "她旧"@);
    assert(list[5] == "她的原名"@);
    assert(list[6] == "她的旧名"@);
    assert(list[7] == "主角"@);
    assert(list[8] == "女主"@);
    assert(list[9] == "原名"@);
    assert(list[10] == "旧名"@);
    assert(list[11] == "同名"@);
}

/// A category reaches beyond a chapter exactly if it has one of these parts.
#[verifier::spinoff_prover]
pub proof fn law_category_beyond_a_chapter(text: Seq<char>)
    ensures
        holds_any(text, structural_categories()) <==> {
            ||| holds(text, "cross"@)
            ||| holds(text, "boundary"@)
            ||| holds(text, "continuity"@)
            ||| holds(text, "missing"@)
            ||| holds(text, "duplicate"@)
            ||| holds(text, "order"@)
        },
{
    let list = structural_categories();
    assert(list.len() == 6);
    assert(list[0] == "cross"@);
    assert(list[1] == "boundary"@);
    assert(list[2] == "continuity"@);
    assert(list[3] == "missing"@);
    assert(list[4] == "duplicate"@);
    assert(list[5] == "order"@);
}

/// A claim reaches beyond a chapter exactly if it has one of these words.
#[verifier::spinoff_prover]
pub proof fn law_claim_beyond_a_chapter(text: Seq<char>)
    ensures
        holds_any(text, structural_words()) <==> {
            ||| holds(text, "跨章"@)
            ||| holds(text, "连续性"@)
            ||| holds(text, "章节边界"@)
            ||| holds(text, "章节缺失"@)
            ||| holds(text, "缺少章节"@)
            ||| holds(text, "章节重复"@)
            ||| holds(text, "重复章节"@)
            ||| holds(text, "串章"@)
            ||| holds(text, "额外章节"@)
            ||| holds(text, "章节顺序"@)
            ||| holds(text, "空正文"@)
        },
{
    let list = structural_words();
    assert(list.len() == 11);
    assert(list[0] == "跨章"@);
    assert(list[1] == "连续性"@);
    assert(list[2] == "章节边界"@);
    assert(list[3] == "章节缺失"@);
    assert(list[4] == "缺少章节"@);
    assert(list[5] == "章节重复"@);
    assert(list[6] == "重复章节"@);
    assert(list[7] == "串章"@);
    assert(list[8] == "额外章节"@);
    assert(list[9] == "章节顺序"@);
    assert(list[10] == "空正文"@);
}

/// A sentence speaks of a name as such exactly if it has one of these words.
#[verifier::spinoff_prover]
pub proof fn law_talk_of_a_name(text: Seq<char>)
    ensures
        holds_any(text, name_nouns()) <==> {
            ||| holds(text, "同名"@)
            ||| holds(text, "原名"@)
            ||| holds(text, "旧名"@)
            ||| holds(text, "本名"@)
        },
{
    let list = name_nouns();
    assert(list.len() == 4);
    assert(list[0] == "同名"@);
    assert(list[1] == "原名"@);
    assert(list[2] == "旧名"@);
    assert(list[3] == "本名"@);
}

/// These words and no others stand for yes.
#[verifier::spinoff_prover]
pub proof fn law_words_for_yes(word: Seq<char>)
    ensures
        yes_words().contains(word) <==> {
            ||| word == "true"@
            ||| word == "yes"@
            ||| word == "pass"@
            ||| word == "passed"@
            ||| word == "approved"@
            ||| word == "ok"@
        },
{
    let list = yes_words();
    assert(list.len() == 6);
    assert(list[0] == "true"@);
    assert(list[1] == "yes"@);
    assert(list[2] == "pass"@);
    assert(list[3] == "passed"@);
    assert(list[4] == "approved"@);
    assert(list[5] == "ok"@);
}

/// An item can have these states and no others.
#[verifier::spinoff_prover]
pub proof fn law_states_of_an_item(word: Seq<char>)
    ensures
        known_statuses().contains(word) <==> {
            ||| word == "satisfied"@
            ||| word == "partial"@
            ||| word == "missed"@
            ||| word == "regressed"@
        },
{
    let list = known_statuses();
    assert(list.len() == 4);
    assert(list[0] == "satisfied"@);
    assert(list[1] == "partial"@);
    assert(list[2] == "missed"@);
    assert(list[3] == "regressed"@);
}

/// These prefixes and no others may stand before the name in a dependency.
#[verifier::spinoff_prover]
pub proof fn law_prefixes_of_a_dependency(word: Seq<char>)
    ensures
        dependency_prefixes().contains(word) <==> {
            ||| word == "node:"@
            ||| word == "obligation:"@
            ||| word == "thread:"@
            ||| word == "node_id:"@
            ||| word == "obligation_id:"@
            ||| word == "thread_key:"@
        },
{
    let list = dependency_prefixes();
    assert(list.len() == 6);
    assert(list[0] == "node:"@);
    assert(list[1] == "obligation:"@);
    assert(list[2] == "thread:"@);
    assert(list[3] == "node_id:"@);
    assert(list[4] == "obligation_id:"@);
    assert(list[5] == "thread_key:"@);
}

/// Analyses fill assets of these kinds and no others.
#[verifier::spinoff_prover]
pub proof fn law_kinds_of_assets(word: Seq<char>)
    ensures
        asset_kinds().contains(word) <==> {
            ||| word == "AI分析汇总"@
            ||| word == "人物卡"@
            ||| word == "人物关系"@
            ||| word == "地点"@
            ||| word == "伏笔"@
            ||| word == "术语表"@
        },
{
    let list = asset_kinds();
    assert(list.len() == 6);
    assert(list[0] == "AI分析汇总"@);
    assert(list[1] == "人物卡"@);
    assert(list[2] == "人物关系"@);
    assert(list[3] == "地点"@);
    assert(list[4] == "伏笔"@);
    assert(list[5] == "术语表"@);
}

/// These arrows and no others stand between a name and the new one.
#[verifier::spinoff_prover]
pub proof fn law_arrows_between_names(word: Seq<char>)
    ensures
        arrows().contains(word) <==> {
            ||| word == "->"@
            ||| word == "=>"@
            ||| word == "→"@
        },
{
    let list = arrows();
    assert(list.len() == 3);
    assert(list[0] == "->"@);
    assert(list[1] == "=>"@);
    assert(list[2] == "→"@);
}

/// These words and no others belong to the format of an answer.
#[verifier::spinoff_prover]
pub proof fn law_words_of_the_format(word: Seq<char>)
    ensures
        format_words().contains(word) <==> {
            ||| word == "blocking"@
            ||| word == "chapter"@
            ||| word == "gender_residue"@
            ||| word == "scope"@
            ||| word == "category"@
            ||| word == "severity"@
            ||| word == "problem"@
            ||| word == "required_fix"@
        },
{
    let list = format_words();
    assert(list.len() == 8);
    assert(list[0] == "blocking"@);
    assert(list[1] == "chapter"@);
    assert(list[2] == "gender_residue"@);
    assert(list[3] == "scope"@);
    assert(list[4] == "category"@);
    assert(list[5] == "severity"@);
    assert(list[6] == "problem"@);
    assert(list[7] == "required_fix"@);
}

/// These forms of address and no others come before a name.
#[verifier::spinoff_prover]
pub proof fn law_address_before_a_name(word: Seq<char>)
    ensures
        name_prefixes().contains(word) <==> {
            ||| word == "小"@
            ||| word == "老"@
            ||| word == "大"@
            ||| word == "阿"@
        },
{
    let list = name_prefixes();
    assert(list.len() == 4);
    assert(list[0] == "小"@);
    assert(list[1] == "老"@);
    assert(list[2] == "大"@);
    assert(list[3] == "阿"@);
}

/// These forms of address and no others come behind a name.
#[verifier::spinoff_prover]
pub proof fn law_address_behind_a_name(word: Seq<char>)
    ensures
        name_suffixes().contains(word) <==> {
            ||| word == "哥"@
            ||| word == "哥哥"@
            ||| word == "兄"@
            ||| word == "兄弟"@
            ||| word == "弟"@
            ||| word == "弟弟"@
            ||| word == "叔"@
            ||| word == "伯"@
            ||| word == "爷"@
            ||| word == "少"@
            ||| word == "少爷"@
            ||| word == "公子"@
            ||| word == "兄台"@
            ||| word == "老弟"@
            ||| word == "贤弟"@
            ||| word == "道兄"@
            ||| word == "道友"@
        },
{
    let list = name_suffixes();
    assert(list.len() == 17);
    assert(list[0] == "哥"@);
    assert(list[1] == "哥哥"@);
    assert(list[2] == "兄"@);
    assert(list[3] == "兄弟"@);
    assert(list[4] == "弟"@);
    assert(list[5] == "弟弟"@);
    assert(list[6] == "叔"@);
    assert(list[7] == "伯"@);
    assert(list[8] == "爷"@);
    assert(list[9] == "少"@);
    assert(list[10] == "少爷"@);
    assert(list[11] == "公子"@);
    assert(list[12] == "兄台"@);
    assert(list[13] == "老弟"@);
    assert(list[14] == "贤弟"@);
    assert(list[15] == "道兄"@);
    assert(list[16] == "道友"@);
}

/// These phrases and no others are taken for labels.
#[verifier::spinoff_prover]
pub proof fn law_labels_of_a_woman(word: Seq<char>)
    ensures
        stereotype_phrases().contains(word) <==> {
            ||| word == "身为女性"@
            ||| word == "身为女人"@
            ||| word == "身为女子"@
            ||| word == "我一个女人"@
            ||| word == "我一个女性"@
            ||| word == "同为女子"@
            ||| word == "同为女人"@
            ||| word == "枉为女性"@
            ||| word == "枉为女人"@
            ||| word == "女性特有"@
            ||| word == "女人特有"@
            ||| word == "女孩子半条命"@
            ||| word == "母性本能"@
            ||| word == "女人就该"@
        },
{
    let list = stereotype_phrases();
    assert(list.len() == 14);
    assert(list[0] == "身为女性"@);
    assert(list[1] == "身为女人"@);
    assert(list[2] == "身为女子"@);
    assert(list[3] == "我一个女人"@);
    assert(list[4] == "我一个女性"@);
    assert(list[5] == "同为女子"@);
    assert(list[6] == "同为女人"@);
    assert(list[7] == "枉为女性"@);
    assert(list[8] == "枉为女人"@);
    assert(list[9] == "女性特有"@);
    assert(list[10] == "女人特有"@);
    assert(list[11] == "女孩子半条命"@);
    assert(list[12] == "母性本能"@);
    assert(list[13] == "女人就该"@);
}

/// These words and no others are counted as fitting anyone.
#[verifier::spinoff_prover]
pub proof fn law_words_that_fit_anyone(word: Seq<char>)
    ensures
        neutral_terms().contains(word) <==> {
            ||| word == "偶像"@
            ||| word == "榜样"@
            ||| word == "英雄"@
            ||| word == "巨人"@
            ||| word == "巨兽"@
            ||| word == "强者"@
            ||| word == "造物主"@
            ||| word == "学生"@
            ||| word == "同伴"@
            ||| word == "朋友"@
            ||| word == "管理员"@
            ||| word == "师父"@
            ||| word == "前辈"@
            ||| word == "对手"@
            ||| word == "敌人"@
            ||| word == "主人"@
            ||| word == "孩子"@
            ||| word == "家伙"@
            ||| word == "单身狗"@
        },
{
    let list = neutral_terms();
    assert(list.len() == 19);
    assert(list[0] == "偶像"@);
    assert(list[1] == "榜样"@);
    assert(list[2] == "英雄"@);
    assert(list[3] == "巨人"@);
    assert(list[4] == "巨兽"@);
    assert(list[5] == "强者"@);
    assert(list[6] == "造物主"@);
    assert(list[7] == "学生"@);
    assert(list[8] == "同伴"@);
    assert(list[9] == "朋友"@);
    assert(list[10] == "管理员"@);
    assert(list[11] == "师父"@);
    assert(list[12] == "前辈"@);
    assert(list[13] == "对手"@);
    assert(list[14] == "敌人"@);
    assert(list[15] == "主人"@);
    assert(list[16] == "孩子"@);
    assert(list[17] == "家伙"@);
    assert(list[18] == "单身狗"@);
}

/// These words and no others are taken for the men of a family.
#[verifier::spinoff_prover]
pub proof fn law_men_of_a_family(word: Seq<char>)
    ensures
        male_family_words().contains(word) <==> {
            ||| word == "父亲"@
            ||| word == "父母"@
            ||| word == "爸爸"@
            ||| word == "爸妈"@
            ||| word == "儿子"@
            ||| word == "兄弟"@
            ||| word == "哥哥"@
            ||| word == "弟弟"@
            ||| word == "丈夫"@
            ||| word == "爷爷"@
            ||| word == "叔叔"@
            ||| word == "伯伯"@
        },
{
    let list = male_family_words();
    assert(list.len() == 12);
    assert(list[0] == "父亲"@);
    assert(list[1] == "父母"@);
    assert(list[2] == "爸爸"@);
    assert(list[3] == "爸妈"@);
    assert(list[4] == "儿子"@);
    assert(list[5] == "兄弟"@);
    assert(list[6] == "哥哥"@);
    assert(list[7] == "弟弟"@);
    assert(list[8] == "丈夫"@);
    assert(list[9] == "爷爷"@);
    assert(list[10] == "叔叔"@);
    assert(list[11] == "伯伯"@);
}

} // verus!
