//! Excerpts of texts for prompts, logs and file names.
use vstd::prelude::*;
use crate::text::{
    blank, chars_of, decimal, holds_char, is_blank, join, join_chars, string_of, trim, trimmed,
    usize_text, words, words_of,
};
use vstd::slice::slice_subrange;

verus! {

/// At most `max` characters from the start of the text, and a note where some are left out.
pub open spec fn head(text: Seq<char>, max: int) -> Seq<char> {
    if text.len() > max {
        text.take(max) + "\n\n[由于上下文限制，本章后续内容已截断。]"@
    } else {
        text
    }
}

pub fn truncate_text(text: &str, max_chars: usize) -> (r: String)
    ensures
        r@ == head(text@, max_chars as int),
{
    let all = chars_of(text);
    if all.len() > max_chars {
        let mut value = string_of(slice_subrange(all.as_slice(), 0, max_chars));
        value.append("\n\n[由于上下文限制，本章后续内容已截断。]");
        value
    } else {
        string_of(all.as_slice())
    }
}

/// At most `max` characters from the end of the text, behind a note where some are left out.
pub open spec fn tail(text: Seq<char>, max: int) -> Seq<char> {
    if text.len() > max {
        "[由于上下文限制，本章前文已截断。]\n\n"@ + text.skip(text.len() - max)
    } else {
        text
    }
}

pub fn truncate_text_tail(text: &str, max_chars: usize) -> (r: String)
    ensures
        r@ == tail(text@, max_chars as int),
{
    let all = chars_of(text);
    let count = all.len();
    if count <= max_chars {
        return string_of(all.as_slice());
    }
    let mut value = "[由于上下文限制，本章前文已截断。]\n\n".to_string();
    let rest = string_of(slice_subrange(all.as_slice(), count - max_chars, count));
    value.append(rest.as_str());
    value
}

/// The words of a text with one space between each two.
pub open spec fn one_line(text: Seq<char>) -> Seq<char> {
    join(words(text), " "@)
}

/// The text on one line, cut behind `max_chars` characters.
pub fn compact_log_line(text: &str, max_chars: usize) -> (r: String)
    ensures
        r@ == if one_line(text@).len() <= max_chars {
            one_line(text@)
        } else {
            one_line(text@).take(max_chars as int) + "..."@
        },
{
    let all = chars_of(text);
    let list = words_of(all.as_slice());
    let space = chars_of(" ");
    let compact = join_chars(list.as_slice(), space.as_slice());
    if compact.len() <= max_chars {
        string_of(compact.as_slice())
    } else {
        let mut line = string_of(slice_subrange(compact.as_slice(), 0, max_chars));
        line.append("...");
        line
    }
}

/// Whether a call was reviewed, as the log shows it.
pub open spec fn review_label(review_enabled: Option<bool>) -> Seq<char> {
    match review_enabled {
        Some(true) => "开启"@,
        Some(false) => "关闭"@,
        None => "不适用"@,
    }
}

pub open spec fn model_log(
    input_chars: int,
    output_chars: int,
    elapsed_seconds: Seq<char>,
    review_enabled: Option<bool>,
    thinking_mode: Seq<char>,
    text: Seq<char>,
) -> Seq<char> {
    "调用统计：\n- 输入字符数："@ + decimal(input_chars) + "\n- 输出字符数："@ + decimal(output_chars)
        + "\n- AI 调用耗时："@ + elapsed_seconds + " 秒\n- 复检："@ + review_label(review_enabled)
        + "\n- 思考模式："@ + thinking_mode + "\n\n"@ + trim(text)
}

/// What the log keeps of a model call. The seconds are given as text, with two digits behind the
/// point.
pub fn format_model_log_content(
    text: &str,
    input_chars: usize,
    output_chars: usize,
    elapsed_seconds: &str,
    thinking_mode: &str,
    review_enabled: Option<bool>,
) -> (r: String)
    ensures
        r@ == model_log(
            input_chars as int,
            output_chars as int,
            elapsed_seconds@,
            review_enabled,
            thinking_mode@,
            text@,
        ),
{
    let label = match review_enabled {
        Some(true) => "开启",
        Some(false) => "关闭",
        None => "不适用",
    };
    let input = usize_text(input_chars);
    let output = usize_text(output_chars);
    let body = trimmed(text);
    let mut m = "调用统计：\n- 输入字符数：".to_string();
    m.append(input.as_str());
    m.append("\n- 输出字符数：");
    m.append(output.as_str());
    m.append("\n- AI 调用耗时：");
    m.append(elapsed_seconds);
    m.append(" 秒\n- 复检：");
    m.append(label);
    m.append("\n- 思考模式：");
    m.append(thinking_mode);
    m.append("\n\n");
    m.append(body.as_str());
    m
}

/// The characters that a file name may not hold.
pub open spec fn forbidden_in_file_names() -> Seq<char> {
    seq!['<', '>', ':', '"', '/', '\\', '|', '?', '*']
}

/// The text with each forbidden character replaced by an underscore.
pub open spec fn without_forbidden(s: Seq<char>) -> Seq<char> {
    Seq::new(
        s.len(),
        |i: int|
            if forbidden_in_file_names().contains(s[i]) {
                '_'
            } else {
                s[i]
            },
    )
}

pub open spec fn file_name_of(s: Seq<char>) -> Seq<char> {
    if blank(without_forbidden(s)) {
        "novel"@
    } else {
        without_forbidden(s)
    }
}

pub fn sanitize_file_name(input: &str) -> (r: String)
    ensures
        r@ == file_name_of(input@),
{
    let all = chars_of(input);
    let forbidden: [char; 9] = ['<', '>', ':', '"', '/', '\\', '|', '?', '*'];
    proof {
        assert(forbidden@ =~= forbidden_in_file_names());
    }
    let mut cleaned = String::new();
    let mut i: usize = 0;
    while i < all.len()
        invariant
            i <= all@.len(),
            all@ == input@,
            forbidden@ == forbidden_in_file_names(),
            cleaned@ == without_forbidden(input@).take(i as int),
        decreases all@.len() - i,
    {
        let c = all[i];
        if holds_char(&forbidden, c) {
            cleaned.push('_');
        } else {
            cleaned.push(c);
        }
        i += 1;
        proof {
            assert(cleaned@ =~= without_forbidden(input@).take(i as int));
        }
    }
    proof {
        assert(cleaned@ =~= without_forbidden(input@));
    }
    if is_blank(cleaned.as_str()) {
        "novel".to_string()
    } else {
        cleaned
    }
}

// ---- laws -----------------------------------------------------------------------------------
/// A file name holds no forbidden character.
pub proof fn law_file_name_is_allowed(s: Seq<char>, i: int)
    requires
        0 <= i < file_name_of(s).len(),
    ensures
        !forbidden_in_file_names().contains(file_name_of(s)[i]),
{
    reveal_strlit("novel");
    let bad = forbidden_in_file_names();
    assert(!bad.contains('_'));
    assert(!bad.contains('n'));
    assert(!bad.contains('o'));
    assert(!bad.contains('v'));
    assert(!bad.contains('e'));
    assert(!bad.contains('l'));
}

/// To clean a file name again changes nothing.
pub proof fn law_file_name_is_stable(s: Seq<char>)
    ensures
        file_name_of(file_name_of(s)) == file_name_of(s),
{
    let once = file_name_of(s);
    assert forall|i: int| 0 <= i < once.len() implies without_forbidden(once)[i] == once[i] by {
        law_file_name_is_allowed(s, i);
    }
    assert(without_forbidden(once) =~= once);
}

/// The head of a text that is short enough is the text; a longer text keeps exactly `max`
/// characters and the note.
pub proof fn law_head_keeps_a_prefix(text: Seq<char>, max: int)
    requires
        0 <= max,
    ensures
        text.len() <= max ==> head(text, max) == text,
        text.len() > max ==> head(text, max).take(max) == text.take(max),
{
    if text.len() > max {
        assert(head(text, max).take(max) =~= text.take(max));
    }
}

/// The tail of a text that is too long ends with its last `max` characters.
pub proof fn law_tail_keeps_a_suffix(text: Seq<char>, max: int)
    requires
        0 <= max,
    ensures
        text.len() <= max ==> tail(text, max) == text,
        text.len() > max ==> tail(text, max).skip(tail(text, max).len() - max) == text.skip(
            text.len() - max,
        ),
{
    if text.len() > max {
        assert(tail(text, max).skip(tail(text, max).len() - max) =~= text.skip(text.len() - max));
    }
}

} // verus!
