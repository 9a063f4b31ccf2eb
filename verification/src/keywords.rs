//! The words by which the library tells what a review issue is about.
use vstd::prelude::*;
use crate::text::{chars_have_any, chars_of, holds_any, views};

verus! {

/// Whether one of the needles stands in the text.
pub fn contains_any(text: &str, needles: &[&str]) -> (r: bool)
    ensures
        r == holds_any(text@, views(needles@)),
{
    let all = chars_of(text);
    chars_have_any(all.as_slice(), needles)
}

/// Words of a claim that something male was left behind.
pub open spec fn gender_residue_words() -> Seq<Seq<char>> {
    seq![
        "男性残留"@,
        "男性化"@,
        "男性姓名"@,
        "男性代词"@,
        "男性称谓"@,
        "男性身份"@,
        "男孩"@,
        "少年"@,
        "小子"@,
        "他"@,
        "残留"@,
        "未改写"@,
        "未修改"@,
        "没有修改"@,
        "没有被修改"@,
        "没有被替换"@,
        "仍为"@,
        "仍是"@,
        "仍然是"@,
    ]
}

fn gender_residue_words_list() -> (r: Vec<&'static str>)
    ensures
        views(r@) == gender_residue_words(),
{
    let list = vec![
        "男性残留",
        "男性化",
        "男性姓名",
        "男性代词",
        "男性称谓",
        "男性身份",
        "男孩",
        "少年",
        "小子",
        "他",
        "残留",
        "未改写",
        "未修改",
        "没有修改",
        "没有被修改",
        "没有被替换",
        "仍为",
        "仍是",
        "仍然是",
    ];
    proof {
        assert(views(list@) =~= gender_residue_words());
    }
    list
}

pub fn holds_gender_residue_words(text: &str) -> (r: bool)
    ensures
        r == holds_any(text@, gender_residue_words()),
{
    let list = gender_residue_words_list();
    contains_any(text, list.as_slice())
}

/// Words for beings that are not human.
pub open spec fn non_human_words() -> Seq<Seq<char>> {
    seq![
        "非人"@,
        "非人生物"@,
        "动物"@,
        "灵兽"@,
        "妖兽"@,
        "凶兽"@,
        "神兽"@,
        "魔兽"@,
        "异兽"@,
        "古兽"@,
        "蛮兽"@,
        "荒兽"@,
        "器灵"@,
        "兽"@,
        "鸟"@,
        "鱼"@,
        "蛇"@,
        "龙"@,
        "虎"@,
        "狼"@,
        "猴"@,
        "猿"@,
        "熊"@,
        "牛"@,
        "马"@,
        "鹏"@,
        "蛟"@,
        "狐"@,
        "雀"@,
        "龟"@,
    ]
}

fn non_human_words_list() -> (r: Vec<&'static str>)
    ensures
        views(r@) == non_human_words(),
{
    let list = vec![
        "非人",
        "非人生物",
        "动物",
        "灵兽",
        "妖兽",
        "凶兽",
        "神兽",
        "魔兽",
        "异兽",
        "古兽",
        "蛮兽",
        "荒兽",
        "器灵",
        "兽",
        "鸟",
        "鱼",
        "蛇",
        "龙",
        "虎",
        "狼",
        "猴",
        "猿",
        "熊",
        "牛",
        "马",
        "鹏",
        "蛟",
        "狐",
        "雀",
        "龟",
    ];
    proof {
        assert(views(list@) =~= non_human_words());
    }
    list
}

pub fn contains_non_human_reference(text: &str) -> (r: bool)
    ensures
        r == holds_any(text@, non_human_words()),
{
    let list = non_human_words_list();
    contains_any(text, list.as_slice())
}

/// Nicknames that fit a person of any gender.
pub open spec fn nickname_words() -> Seq<Seq<char>> {
    seq![
        "这个家伙"@,
        "这家伙"@,
        "那个家伙"@,
        "那家伙"@,
        "家伙"@,
        "熊孩子"@,
        "孩子"@,
        "吃货"@,
        "小鬼"@,
    ]
}

fn nickname_words_list() -> (r: Vec<&'static str>)
    ensures
        views(r@) == nickname_words(),
{
    let list = vec![
        "这个家伙",
        "这家伙",
        "那个家伙",
        "那家伙",
        "家伙",
        "熊孩子",
        "孩子",
        "吃货",
        "小鬼",
    ];
    proof {
        assert(views(list@) =~= nickname_words());
    }
    list
}

pub fn contains_neutral_protagonist_nickname(text: &str) -> (r: bool)
    ensures
        r == holds_any(text@, nickname_words()),
{
    let list = nickname_words_list();
    contains_any(text, list.as_slice())
}

/// Words that make a person male, the pronoun among them.
pub open spec fn male_reference_words() -> Seq<Seq<char>> {
    seq![
        "少年"@,
        "男孩"@,
        "男子"@,
        "男人"@,
        "男性"@,
        "男儿"@,
        "男主"@,
        "公子"@,
        "少爷"@,
        "少主"@,
        "父亲"@,
        "兄弟"@,
        "哥哥"@,
        "弟弟"@,
        "小子"@,
        "汉子"@,
        "爷们"@,
        "郎君"@,
        "少年郎"@,
        "他"@,
        "他的"@,
        "他是"@,
    ]
}

fn male_reference_words_list() -> (r: Vec<&'static str>)
    ensures
        views(r@) == male_reference_words(),
{
    let list = vec![
        "少年",
        "男孩",
        "男子",
        "男人",
        "男性",
        "男儿",
        "男主",
        "公子",
        "少爷",
        "少主",
        "父亲",
        "兄弟",
        "哥哥",
        "弟弟",
        "小子",
        "汉子",
        "爷们",
        "郎君",
        "少年郎",
        "他",
        "他的",
        "他是",
    ];
    proof {
        assert(views(list@) =~= male_reference_words());
    }
    list
}

pub fn contains_explicit_male_protagonist_reference(text: &str) -> (r: bool)
    ensures
        r == holds_any(text@, male_reference_words()),
{
    let list = male_reference_words_list();
    contains_any(text, list.as_slice())
}

/// Words that make a being male, without the pronoun.
pub open spec fn male_identity_words() -> Seq<Seq<char>> {
    seq![
        "雄性"@,
        "公兽"@,
        "雄兽"@,
        "雄鸟"@,
        "公鸟"@,
        "雄龙"@,
        "公龙"@,
        "少年"@,
        "男孩"@,
        "男子"@,
        "男人"@,
        "男性"@,
        "男儿"@,
        "男主"@,
        "公子"@,
        "少爷"@,
        "少主"@,
        "父亲"@,
        "兄弟"@,
        "哥哥"@,
        "弟弟"@,
        "小子"@,
        "汉子"@,
        "爷们"@,
        "郎君"@,
        "少年郎"@,
    ]
}

fn male_identity_words_list() -> (r: Vec<&'static str>)
    ensures
        views(r@) == male_identity_words(),
{
    let list = vec![
        "雄性",
        "公兽",
        "雄兽",
        "雄鸟",
        "公鸟",
        "雄龙",
        "公龙",
        "少年",
        "男孩",
        "男子",
        "男人",
        "男性",
        "男儿",
        "男主",
        "公子",
        "少爷",
        "少主",
        "父亲",
        "兄弟",
        "哥哥",
        "弟弟",
        "小子",
        "汉子",
        "爷们",
        "郎君",
        "少年郎",
    ];
    proof {
        assert(views(list@) =~= male_identity_words());
    }
    list
}

pub fn contains_explicit_male_identity_reference(text: &str) -> (r: bool)
    ensures
        r == holds_any(text@, male_identity_words()),
{
    let list = male_identity_words_list();
    contains_any(text, list.as_slice())
}

/// Words of a claim about pronouns.
pub open spec fn pronoun_claim_words() -> Seq<Seq<char>> {
    seq![
        "代词"@,
        "人称"@,
        "称谓"@,
        "他"@,
        "她"@,
        "它"@,
    ]
}

fn pronoun_claim_words_list() -> (r: Vec<&'static str>)
    ensures
        views(r@) == pronoun_claim_words(),
{
    let list = vec![
        "代词",
        "人称",
        "称谓",
        "他",
        "她",
        "它",
    ];
    proof {
        assert(views(list@) =~= pronoun_claim_words());
    }
    list
}

pub fn holds_pronoun_claim_words(text: &str) -> (r: bool)
    ensures
        r == holds_any(text@, pronoun_claim_words()),
{
    let list = pronoun_claim_words_list();
    contains_any(text, list.as_slice())
}

/// Third-person pronouns.
pub open spec fn pronoun_words() -> Seq<Seq<char>> {
    seq![
        "他"@,
        "她"@,
        "它"@,
        "牠"@,
    ]
}

fn pronoun_words_list() -> (r: Vec<&'static str>)
    ensures
        views(r@) == pronoun_words(),
{
    let list = vec![
        "他",
        "她",
        "它",
        "牠",
    ];
    proof {
        assert(views(list@) =~= pronoun_words());
    }
    list
}

pub fn holds_pronoun_words(text: &str) -> (r: bool)
    ensures
        r == holds_any(text@, pronoun_words()),
{
    let list = pronoun_words_list();
    contains_any(text, list.as_slice())
}

/// Words for the protagonist.
pub open spec fn protagonist_words() -> Seq<Seq<char>> {
    seq![
        "主角"@,
        "女主"@,
        "男主"@,
    ]
}

fn protagonist_words_list() -> (r: Vec<&'static str>)
    ensures
        views(r@) == protagonist_words(),
{
    let list = vec![
        "主角",
        "女主",
        "男主",
    ];
    proof {
        assert(views(list@) =~= protagonist_words());
    }
    list
}

pub fn holds_protagonist_words(text: &str) -> (r: bool)
    ensures
        r == holds_any(text@, protagonist_words()),
{
    let list = protagonist_words_list();
    contains_any(text, list.as_slice())
}

/// Words of a claim that a name was not replaced.
pub open spec fn name_residue_words() -> Seq<Seq<char>> {
    seq![
        "原名"@,
        "男性姓名"@,
        "姓名残留"@,
        "仍残留"@,
        "残留主角"@,
        "没有被替换"@,
        "未被替换"@,
        "未替换"@,
        "未改写"@,
    ]
}

fn name_residue_words_list() -> (r: Vec<&'static str>)
    ensures
        views(r@) == name_residue_words(),
{
    let list = vec![
        "原名",
        "男性姓名",
        "姓名残留",
        "仍残留",
        "残留主角",
        "没有被替换",
        "未被替换",
        "未替换",
        "未改写",
    ];
    proof {
        assert(views(list@) =~= name_residue_words());
    }
    list
}

pub fn holds_name_residue_words(text: &str) -> (r: bool)
    ensures
        r == holds_any(text@, name_residue_words()),
{
    let list = name_residue_words_list();
    contains_any(text, list.as_slice())
}

/// Parts of the categories of issues about missing content.
pub open spec fn missing_categories() -> Seq<Seq<char>> {
    seq![
        "missing"@,
        "content"@,
        "omission"@,
    ]
}

fn missing_categories_list() -> (r: Vec<&'static str>)
    ensures
        views(r@) == missing_categories(),
{
    let list = vec![
        "missing",
        "content",
        "omission",
    ];
    proof {
        assert(views(list@) =~= missing_categories());
    }
    list
}

pub fn holds_missing_categories(text: &str) -> (r: bool)
    ensures
        r == holds_any(text@, missing_categories()),
{
    let list = missing_categories_list();
    contains_any(text, list.as_slice())
}

/// Words of a claim that content is missing.
pub open spec fn missing_content_words() -> Seq<Seq<char>> {
    seq![
        "内容缺失"@,
        "正文缺失"@,
        "缺句"@,
        "遗漏"@,
        "被删除"@,
        "删除了"@,
        "未保留"@,
        "没有保留"@,
    ]
}

fn missing_content_words_list() -> (r: Vec<&'static str>)
    ensures
        views(r@) == missing_content_words(),
{
    let list = vec![
        "内容缺失",
        "正文缺失",
        "缺句",
        "遗漏",
        "被删除",
        "删除了",
        "未保留",
        "没有保留",
    ];
    proof {
        assert(views(list@) =~= missing_content_words());
    }
    list
}

pub fn holds_missing_content_words(text: &str) -> (r: bool)
    ensures
        r == holds_any(text@, missing_content_words()),
{
    let list = missing_content_words_list();
    contains_any(text, list.as_slice())
}

/// Words of a remark about the numbering of titles.
pub open spec fn numbering_words() -> Seq<Seq<char>> {
    seq![
        "编号"@,
        "章号"@,
        "数字"@,
        "不匹配"@,
        "不对应"@,
        "矛盾"@,
        "统一"@,
        "重编号"@,
        "补零"@,
    ]
}

fn numbering_words_list() -> (r: Vec<&'static str>)
    ensures
        views(r@) == numbering_words(),
{
    let list = vec![
        "编号",
        "章号",
        "数字",
        "不匹配",
        "不对应",
        "矛盾",
        "统一",
        "重编号",
        "补零",
    ];
    proof {
        assert(views(list@) =~= numbering_words());
    }
    list
}

pub fn holds_numbering_words(text: &str) -> (r: bool)
    ensures
        r == holds_any(text@, numbering_words()),
{
    let list = numbering_words_list();
    contains_any(text, list.as_slice())
}

/// Words for a real defect of a title.
pub open spec fn title_defect_words() -> Seq<Seq<char>> {
    seq![
        "标题缺失"@,
        "标题为空"@,
        "空标题"@,
        "标题重复"@,
        "串章"@,
        "边界"@,
        "截断"@,
        "乱码"@,
        "不完整"@,
    ]
}

fn title_defect_words_list() -> (r: Vec<&'static str>)
    ensures
        views(r@) == title_defect_words(),
{
    let list = vec![
        "标题缺失",
        "标题为空",
        "空标题",
        "标题重复",
        "串章",
        "边界",
        "截断",
        "乱码",
        "不完整",
    ];
    proof {
        assert(views(list@) =~= title_defect_words());
    }
    list
}

pub fn holds_title_defect_words(text: &str) -> (r: bool)
    ensures
        r == holds_any(text@, title_defect_words()),
{
    let list = title_defect_words_list();
    contains_any(text, list.as_slice())
}

/// Words that say that all is well.
pub open spec fn compliant_words() -> Seq<Seq<char>> {
    seq![
        "符合规则"@,
        "符合要求"@,
        "正确保留"@,
        "确认保留"@,
        "无需修改"@,
        "不需要修改"@,
        "各项通过"@,
        "基本通过"@,
        "基本合格"@,
        "整体合格"@,
        "全部合格"@,
        "审查通过"@,
        "审查点基本通过"@,
        "保持良好"@,
        "表现良好"@,
        "文风自然"@,
        "章节完整"@,
        "修改正确"@,
        "替换正确"@,
        "完整性均符合"@,
        "正确且一致"@,
        "均已正确"@,
        "未见残留"@,
        "未发现问题"@,
        "未发现阻断"@,
        "不存在阻断"@,
        "无阻断问题"@,
        "没有阻断问题"@,
        "符合原文"@,
        "符合情节"@,
        "符合设定"@,
        "补充适当"@,
        "确认即可"@,
        "保持即可"@,
        "维持原样"@,
    ]
}

fn compliant_words_list() -> (r: Vec<&'static str>)
    ensures
        views(r@) == compliant_words(),
{
    let list = vec![
        "符合规则",
        "符合要求",
        "正确保留",
        "确认保留",
        "无需修改",
        "不需要修改",
        "各项通过",
        "基本通过",
        "基本合格",
        "整体合格",
        "全部合格",
        "审查通过",
        "审查点基本通过",
        "保持良好",
        "表现良好",
        "文风自然",
        "章节完整",
        "修改正确",
        "替换正确",
        "完整性均符合",
        "正确且一致",
        "均已正确",
        "未见残留",
        "未发现问题",
        "未发现阻断",
        "不存在阻断",
        "无阻断问题",
        "没有阻断问题",
        "符合原文",
        "符合情节",
        "符合设定",
        "补充适当",
        "确认即可",
        "保持即可",
        "维持原样",
    ];
    proof {
        assert(views(list@) =~= compliant_words());
    }
    list
}

pub fn holds_compliant_words(text: &str) -> (r: bool)
    ensures
        r == holds_any(text@, compliant_words()),
{
    let list = compliant_words_list();
    contains_any(text, list.as_slice())
}

/// Phrases that only sound like a defect.
pub open spec fn harmless_words() -> Seq<Seq<char>> {
    seq![
        "无需修改"@,
        "不需要修改"@,
        "无需修正"@,
        "不需要修正"@,
        "无需替换"@,
        "不需要替换"@,
    ]
}

pub fn harmless_words_list() -> (r: Vec<&'static str>)
    ensures
        views(r@) == harmless_words(),
{
    let list = vec![
        "无需修改",
        "不需要修改",
        "无需修正",
        "不需要修正",
        "无需替换",
        "不需要替换",
    ];
    proof {
        assert(views(list@) =~= harmless_words());
    }
    list
}

/// Words that name a defect.
pub open spec fn defect_words() -> Seq<Seq<char>> {
    seq![
        "关键错误"@,
        "存在错误"@,
        "违反"@,
        "不符合"@,
        "未遵守"@,
        "误改"@,
        "缺失"@,
        "缺少"@,
        "遗漏"@,
        "不一致"@,
        "矛盾"@,
        "冲突"@,
        "断裂"@,
        "错乱"@,
        "空正文"@,
        "不完整"@,
        "截断"@,
        "未女性化"@,
        "没有女性化"@,
        "仍为男性"@,
        "仍使用男性"@,
        "错误地"@,
        "误将"@,
        "未改"@,
        "未替换"@,
        "破坏"@,
        "突然跳跃"@,
        "突然重置"@,
        "必须修改"@,
        "需要修改"@,
        "需要修正"@,
        "必须修正"@,
        "应当修改"@,
        "应修改"@,
        "需修改"@,
        "应当修正"@,
        "应修正"@,
        "需修正"@,
        "应当替换"@,
        "应替换"@,
        "需替换"@,
    ]
}

fn defect_words_list() -> (r: Vec<&'static str>)
    ensures
        views(r@) == defect_words(),
{
    let list = vec![
        "关键错误",
        "存在错误",
        "违反",
        "不符合",
        "未遵守",
        "误改",
        "缺失",
        "缺少",
        "遗漏",
        "不一致",
        "矛盾",
        "冲突",
        "断裂",
        "错乱",
        "空正文",
        "不完整",
        "截断",
        "未女性化",
        "没有女性化",
        "仍为男性",
        "仍使用男性",
        "错误地",
        "误将",
        "未改",
        "未替换",
        "破坏",
        "突然跳跃",
        "突然重置",
        "必须修改",
        "需要修改",
        "需要修正",
        "必须修正",
        "应当修改",
        "应修改",
        "需修改",
        "应当修正",
        "应修正",
        "需修正",
        "应当替换",
        "应替换",
        "需替换",
    ];
    proof {
        assert(views(list@) =~= defect_words());
    }
    list
}

pub fn holds_defect_words(text: &str) -> (r: bool)
    ensures
        r == holds_any(text@, defect_words()),
{
    let list = defect_words_list();
    contains_any(text, list.as_slice())
}

/// Words that make a sentence about an old name one about the protagonist.
pub open spec fn legacy_subject_words() -> Seq<Seq<char>> {
    seq![
        "她原本"@,
        "她原来"@,
        "她本来"@,
        "她曾"@,
        "她旧"@,
        "她的原名"@,
        "她的旧名"@,
        "主角"@,
        "女主"@,
        "原名"@,
        "旧名"@,
        "同名"@,
    ]
}

fn legacy_subject_words_list() -> (r: Vec<&'static str>)
    ensures
        views(r@) == legacy_subject_words(),
{
    let list = vec![
        "她原本",
        "她原来",
        "她本来",
        "她曾",
        "她旧",
        "她的原名",
        "她的旧名",
        "主角",
        "女主",
        "原名",
        "旧名",
        "同名",
    ];
    proof {
        assert(views(list@) =~= legacy_subject_words());
    }
    list
}

pub fn holds_legacy_subject_words(text: &str) -> (r: bool)
    ensures
        r == holds_any(text@, legacy_subject_words()),
{
    let list = legacy_subject_words_list();
    contains_any(text, list.as_slice())
}

/// Parts of the categories of issues that concern more than one chapter.
pub open spec fn structural_categories() -> Seq<Seq<char>> {
    seq![
        "cross"@,
        "boundary"@,
        "continuity"@,
        "missing"@,
        "duplicate"@,
        "order"@,
    ]
}

fn structural_categories_list() -> (r: Vec<&'static str>)
    ensures
        views(r@) == structural_categories(),
{
    let list = vec![
        "cross",
        "boundary",
        "continuity",
        "missing",
        "duplicate",
        "order",
    ];
    proof {
        assert(views(list@) =~= structural_categories());
    }
    list
}

pub fn holds_structural_categories(text: &str) -> (r: bool)
    ensures
        r == holds_any(text@, structural_categories()),
{
    let list = structural_categories_list();
    contains_any(text, list.as_slice())
}

/// Words of issues that concern more than one chapter.
pub open spec fn structural_words() -> Seq<Seq<char>> {
    seq![
        "跨章"@,
        "连续性"@,
        "章节边界"@,
        "章节缺失"@,
        "缺少章节"@,
        "章节重复"@,
        "重复章节"@,
        "串章"@,
        "额外章节"@,
        "章节顺序"@,
        "空正文"@,
    ]
}

fn structural_words_list() -> (r: Vec<&'static str>)
    ensures
        views(r@) == structural_words(),
{
    let list = vec![
        "跨章",
        "连续性",
        "章节边界",
        "章节缺失",
        "缺少章节",
        "章节重复",
        "重复章节",
        "串章",
        "额外章节",
        "章节顺序",
        "空正文",
    ];
    proof {
        assert(views(list@) =~= structural_words());
    }
    list
}

pub fn holds_structural_words(text: &str) -> (r: bool)
    ensures
        r == holds_any(text@, structural_words()),
{
    let list = structural_words_list();
    contains_any(text, list.as_slice())
}

} // verus!
