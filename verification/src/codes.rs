//! The codes of the puzzle as the recognizer delivers them: cleaning the
//! recognized text, correcting common misreadings, and telling valid codes
//! from invalid ones.

use crate::types::tokens;
use vstd::prelude::*;
use vstd::string::{StrSliceExecFns, StringExecFns};

verus! {

/// What `str::trim_end` leaves of a text.
pub uninterp spec fn trimmed_end(text: Seq<char>) -> Seq<char>;

/// What `str::to_uppercase` makes of a text.
pub uninterp spec fn uppercased(text: Seq<char>) -> Seq<char>;

/// `str::trim_end` of std: the text without its trailing whitespace. The
/// contract only gives the result its name; which characters count as
/// whitespace is left to std.
#[verifier::external_body]
fn trim_end_of<'a>(text: &'a str) -> (trimmed: &'a str)
    ensures
        trimmed@ == trimmed_end(text@),
{
    text.trim_end()
}

/// `str::to_uppercase` of std: the text in upper case. The contract only
/// gives the result its name; the case mapping is left to std.
#[verifier::external_body]
fn uppercase_of(text: &str) -> (upper: String)
    ensures
        upper@ == uppercased(text@),
{
    text.to_uppercase()
}

/// A recognized text as the scanner compares it: without trailing
/// whitespace and in upper case.
pub fn clean_text(raw: &str) -> (text: String)
    ensures
        text@ == uppercased(trimmed_end(raw@)),
{
    uppercase_of(trim_end_of(raw))
}

/// The code that a recognized text stands for: the three misreadings
/// "BO", "C" and "TA" stand for "BD", "1C" and "7A", and every other text
/// stands for itself.
pub open spec fn corrected(text: Seq<char>) -> Seq<char> {
    if text == "BO"@ {
        "BD"@
    } else if text == "C"@ {
        "1C"@
    } else if text == "TA"@ {
        "7A"@
    } else {
        text
    }
}

/// The message that reports `code` as invalid.
pub open spec fn invalid_code_message(code: Seq<char>) -> Seq<char> {
    "An invalid code \""@ + code + "\" was recognized"@
}

/// Whether `text` reads as `literal`.
fn reads_as(text: &String, literal: &str) -> (same: bool)
    ensures
        same == (text@ == literal@),
{
    *text == literal.to_owned()
}

/// Replaces the three common misreadings by the codes they stand for.
pub fn correct_code(text: String) -> (code: String)
    ensures
        code@ == corrected(text@),
{
    if reads_as(&text, "BO") {
        "BD".to_owned()
    } else if reads_as(&text, "C") {
        "1C".to_owned()
    } else if reads_as(&text, "TA") {
        "7A".to_owned()
    } else {
        text
    }
}

/// Whether `code` is one of `valid_codes`.
pub fn contains_code(valid_codes: &Vec<String>, code: &String) -> (found: bool)
    ensures
        found == tokens(valid_codes@).contains(code@),
{
    let mut i: usize = 0;
    while i < valid_codes.len()
        invariant
            i <= valid_codes.len(),
            forall|k: int| 0 <= k < i ==> tokens(valid_codes@)[k] != code@,
        decreases valid_codes.len() - i,
    {
        if valid_codes[i] == *code {
            assert(tokens(valid_codes@)[i as int] == code@);
            return true;
        }
        i = i + 1;
    }
    false
}

/// Turns a recognized text into a code of the puzzle: the text is
/// corrected, and the result is accepted if it is one of `valid_codes` and
/// reported as invalid otherwise.
pub fn accept_code(text: String, valid_codes: &Vec<String>) -> (result: Result<String, String>)
    ensures
        match result {
            Ok(code) => code@ == corrected(text@) && tokens(valid_codes@).contains(code@),
            Err(message) => !tokens(valid_codes@).contains(corrected(text@)) && message@
                == invalid_code_message(corrected(text@)),
        },
{
    let code = correct_code(text);
    if !contains_code(valid_codes, &code) {
        let mut message = "An invalid code \"".to_owned();
        message.append(code.as_str());
        message.append("\" was recognized");
        return Err(message);
    }
    Ok(code)
}

/// `c` is a character of one of the first `n` of `codes`.
pub open spec fn occurs_before(codes: Seq<Seq<char>>, n: int, c: char) -> bool {
    exists|i: int, j: int| 0 <= i < n && 0 <= j < codes[i].len() && #[trigger] codes[i][j] == c
}

/// `c` is a character of one of `codes`.
pub open spec fn occurs_in_codes(codes: Seq<Seq<char>>, c: char) -> bool {
    occurs_before(codes, codes.len() as int, c)
}

/// `c` is one of the first `n` characters of `code`.
pub open spec fn starts_with_char(code: Seq<char>, n: int, c: char) -> bool {
    exists|j: int| 0 <= j < n && #[trigger] code[j] == c
}

/// `text` holds no character twice.
pub open spec fn no_repeats(text: Seq<char>) -> bool {
    forall|i: int, j: int| 0 <= i < j < text.len() ==> text[i] != text[j]
}

/// The characters of the first `n` codes are those of the first `n - 1`
/// and those of the last of them.
proof fn lemma_occurs_next(codes: Seq<Seq<char>>, n: int, c: char)
    requires
        0 < n <= codes.len(),
    ensures
        occurs_before(codes, n, c) <==> occurs_before(codes, n - 1, c) || starts_with_char(
            codes[n - 1],
            codes[n - 1].len() as int,
            c,
        ),
{
    if occurs_before(codes, n, c) {
        let (i, j) = choose|i: int, j: int|
            0 <= i < n && 0 <= j < codes[i].len() && #[trigger] codes[i][j] == c;
        if i < n - 1 {
            assert(occurs_before(codes, n - 1, c));
        } else {
            assert(codes[n - 1][j] == c);
        }
    }
    if occurs_before(codes, n - 1, c) {
        let (i, j) = choose|i: int, j: int|
            0 <= i < n - 1 && 0 <= j < codes[i].len() && #[trigger] codes[i][j] == c;
        assert(codes[i][j] == c);
    }
    if starts_with_char(codes[n - 1], codes[n - 1].len() as int, c) {
        let j = choose|j: int| 0 <= j < codes[n - 1].len() && #[trigger] codes[n - 1][j] == c;
        assert(codes[n - 1][j] == c);
    }
}

/// The first `n` characters of a code are the first `n - 1` and the one
/// that follows them.
proof fn lemma_starts_next(code: Seq<char>, n: int, c: char)
    requires
        0 < n <= code.len(),
    ensures
        starts_with_char(code, n, c) <==> starts_with_char(code, n - 1, c) || code[n - 1] == c,
{
    if starts_with_char(code, n, c) {
        let j = choose|j: int| 0 <= j < n && #[trigger] code[j] == c;
        if j < n - 1 {
            assert(starts_with_char(code, n - 1, c));
        }
    }
    if starts_with_char(code, n - 1, c) {
        let j = choose|j: int| 0 <= j < n - 1 && #[trigger] code[j] == c;
        assert(code[j] == c);
    }
}

/// A text with one more character holds what it held and that character.
proof fn lemma_push_contains(text: Seq<char>, c: char, x: char)
    ensures
        text.push(c).contains(x) <==> text.contains(x) || x == c,
{
    let longer = text.push(c);
    if text.contains(x) {
        let k = choose|k: int| 0 <= k < text.len() && text[k] == x;
        assert(longer[k] == x);
    }
    if x == c {
        assert(longer[text.len() as int] == x);
    }
}

/// The characters met in the first `i` of `codes` and the first `j`
/// characters of the next, each once, in the order in which they are
/// first met.
pub open spec fn first_met(codes: Seq<Seq<char>>, i: int, j: int) -> Seq<char>
    decreases i, j,
{
    if j > 0 {
        let before = first_met(codes, i, j - 1);
        if before.contains(codes[i][j - 1]) {
            before
        } else {
            before.push(codes[i][j - 1])
        }
    } else if i > 0 {
        first_met(codes, i - 1, codes[i - 1].len() as int)
    } else {
        Seq::empty()
    }
}

/// The characters that the recognizer is to admit: every character of
/// `valid_codes`, each once, in the order in which they are first met.
pub fn char_whitelist(valid_codes: &Vec<String>) -> (whitelist: String)
    ensures
        whitelist@ == first_met(tokens(valid_codes@), valid_codes.len() as int, 0),
        no_repeats(whitelist@),
        forall|c: char| whitelist@.contains(c) <==> occurs_in_codes(tokens(valid_codes@), c),
{
    let ghost codes = tokens(valid_codes@);
    let mut whitelist = String::new();
    let mut i: usize = 0;
    while i < valid_codes.len()
        invariant
            i <= valid_codes.len(),
            codes == tokens(valid_codes@),
            whitelist@ == first_met(codes, i as int, 0),
            no_repeats(whitelist@),
            forall|c: char| whitelist@.contains(c) <==> occurs_before(codes, i as int, c),
        decreases valid_codes.len() - i,
    {
        let code = valid_codes[i].as_str();
        let len: usize = code.unicode_len();
        let mut j: usize = 0;
        while j < len
            invariant
                i < valid_codes.len(),
                codes == tokens(valid_codes@),
                code@ == codes[i as int],
                len == code@.len(),
                j <= len,
                whitelist@ == first_met(codes, i as int, j as int),
                no_repeats(whitelist@),
                forall|c: char|
                    whitelist@.contains(c) <==> occurs_before(codes, i as int, c)
                        || starts_with_char(code@, j as int, c),
            decreases len - j,
        {
            let c = code.get_char(j);
            let ghost before = whitelist@;
            if !has_char(&whitelist, c) {
                let one = code.substring_char(j, j + 1);
                assert(one@ =~= seq![c]);
                whitelist.append(one);
                assert(whitelist@ =~= before.push(c));
            }
            proof {
                assert forall|x: char|
                    whitelist@.contains(x) <==> occurs_before(codes, i as int, x)
                        || starts_with_char(code@, j + 1, x) by {
                    lemma_push_contains(before, c, x);
                    lemma_starts_next(code@, j + 1, x);
                }
            }
            j = j + 1;
        }
        proof {
            assert forall|c: char| whitelist@.contains(c) <==> occurs_before(codes, i + 1, c) by {
                lemma_occurs_next(codes, i + 1, c);
            }
        }
        i = i + 1;
    }
    whitelist
}

/// Whether `c` is a character of `text`.
fn has_char(text: &String, c: char) -> (found: bool)
    ensures
        found == text@.contains(c),
{
    let s = text.as_str();
    let len: usize = s.unicode_len();
    let mut k: usize = 0;
    while k < len
        invariant
            k <= len,
            len == s@.len(),
            s@ == text@,
            forall|n: int| 0 <= n < k ==> text@[n] != c,
        decreases len - k,
    {
        if s.get_char(k) == c {
            return true;
        }
        k = k + 1;
    }
    false
}

} // verus!
