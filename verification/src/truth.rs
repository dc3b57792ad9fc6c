//! Reading truthy and falsy words.
use vstd::prelude::*;
use vstd::utf8::is_ascii_chars;

verus! {

/// What `str::to_lowercase` makes of a string.
pub uninterp spec fn lowercase(s: Seq<char>) -> Seq<char>;

/// A character with the letters `A` to `Z` lowered and all others kept.
pub open spec fn ascii_lower(c: char) -> char {
    if 'A' <= c <= 'Z' {
        (c as u32 + 32) as char
    } else {
        c
    }
}

/// A string with the letters `A` to `Z` lowered.
pub open spec fn ascii_lowered(s: Seq<char>) -> Seq<char> {
    s.map_values(|c: char| ascii_lower(c))
}

/// `str::to_lowercase` depends on the string alone. It lowers the ASCII letters in
/// addition to the other characters, which is how `str::to_ascii_lowercase` is documented
/// to differ from it; so to lower `A` to `Z` first does not change the result, and a
/// string of ASCII characters has its letters lowered and nothing else. What becomes of
/// other characters is not stated.
pub assume_specification[ str::to_lowercase ](s: &str) -> (lowered: String)
    ensures
        lowered@ == lowercase(s@),
        lowered@ == lowercase(ascii_lowered(s@)),
        is_ascii_chars(s@) ==> lowered@ == ascii_lowered(s@),
;

/// One of the truthy spellings that are looked for first.
pub open spec fn spells_true(s: Seq<char>) -> bool {
    ||| s == "t"@
    ||| s == "T"@
    ||| s == "true"@
    ||| s == "True"@
    ||| s == "1"@
    ||| s == "on"@
    ||| s == "On"@
    ||| s == "y"@
    ||| s == "Y"@
    ||| s == "yes"@
    ||| s == "Yes"@
}

/// One of the falsy spellings that are looked for first.
pub open spec fn spells_false(s: Seq<char>) -> bool {
    ||| s == "f"@
    ||| s == "F"@
    ||| s == "false"@
    ||| s == "False"@
    ||| s == "0"@
    ||| s == "off"@
    ||| s == "Off"@
    ||| s == "n"@
    ||| s == "N"@
    ||| s == "no"@
    ||| s == "No"@
}

/// What a string `s`, whose lowercase form is `lowered`, says: the usual spellings
/// count as they are, the whole words in any mix of cases.
pub open spec fn truth(s: Seq<char>, lowered: Seq<char>) -> Option<bool> {
    if spells_true(s) {
        Some(true)
    } else if spells_false(s) {
        Some(false)
    } else if lowered == "true"@ || lowered == "on"@ || lowered == "yes"@ {
        Some(true)
    } else if lowered == "false"@ || lowered == "off"@ || lowered == "no"@ {
        Some(false)
    } else {
        None
    }
}

/// What a lowercase word says.
pub open spec fn word_truth(w: Seq<char>) -> Option<bool> {
    if w == "t"@ || w == "true"@ || w == "1"@ || w == "on"@ || w == "y"@ || w == "yes"@ {
        Some(true)
    } else if w == "f"@ || w == "false"@ || w == "0"@ || w == "off"@ || w == "n"@ || w == "no"@ {
        Some(false)
    } else {
        None
    }
}

/// What a string says, whatever the case of its ASCII letters.
pub open spec fn reads_as(s: Seq<char>) -> Option<bool> {
    truth(ascii_lowered(s), lowercase(ascii_lowered(s)))
}

/// Two strings that differ at most in the case of ASCII letters.
pub open spec fn same_but_case(s: Seq<char>, t: Seq<char>) -> bool {
    &&& s.len() == t.len()
    &&& forall|i: int| 0 <= i < s.len() ==> #[trigger] ascii_lower(s[i]) == ascii_lower(t[i])
}

/// A string that is neither truthy nor falsy, in lowercase.
#[derive(Debug)]
pub struct InvalidBool {
    pub found: String,
}

/// Tells whether two strings hold the same characters.
fn same(a: &str, b: &str) -> (r: bool)
    ensures
        r == (a@ == b@),
{
    let n: usize = a.unicode_len();
    if n != b.unicode_len() {
        return false;
    }
    let mut i: usize = 0;
    while i < n
        invariant
            i <= n,
            n == a@.len(),
            n == b@.len(),
            forall|j: int| 0 <= j < i ==> a@[j] == b@[j],
        decreases n - i,
    {
        if a.get_char(i) != b.get_char(i) {
            return false;
        }
        i = i + 1;
    }
    proof {
        assert(a@ =~= b@);
    }
    true
}

/// Reads a string that is given along with its lowercase form.
pub fn read_bool(s: &str, lowered: &str) -> (r: Option<bool>)
    ensures
        r == truth(s@, lowered@),
{
    if same(s, "t")
        || same(s, "T")
        || same(s, "true")
        || same(s, "True")
        || same(s, "1")
        || same(s, "on")
        || same(s, "On")
        || same(s, "y")
        || same(s, "Y")
        || same(s, "yes")
        || same(s, "Yes")
    {
        Some(true)
    } else if same(s, "f")
        || same(s, "F")
        || same(s, "false")
        || same(s, "False")
        || same(s, "0")
        || same(s, "off")
        || same(s, "Off")
        || same(s, "n")
        || same(s, "N")
        || same(s, "no")
        || same(s, "No")
    {
        Some(false)
    } else if same(lowered, "true") || same(lowered, "on") || same(lowered, "yes") {
        // weird mixed-case spellings like tRue or nO
        Some(true)
    } else if same(lowered, "false") || same(lowered, "off") || same(lowered, "no") {
        Some(false)
    } else {
        None
    }
}

/// Converts a string to a boolean based on truthy and falsy values.
pub fn bool_from_str(s: &str) -> (r: Result<bool, InvalidBool>)
    ensures
        match r {
            Ok(b) => truth(s@, lowercase(s@)) == Some(b),
            Err(e) => truth(s@, lowercase(s@)) is None && e.found@ == lowercase(s@),
        },
        match r {
            Ok(b) => reads_as(s@) == Some(b),
            Err(e) => reads_as(s@) is None && e.found@ == lowercase(ascii_lowered(s@)),
        },
        is_ascii_chars(s@) ==> match r {
            Ok(b) => word_truth(ascii_lowered(s@)) == Some(b),
            Err(e) => word_truth(ascii_lowered(s@)) is None && e.found@ == ascii_lowered(s@),
        },
{
    let lowered: String = s.to_lowercase();
    proof {
        let l: Seq<char> = ascii_lowered(s@);
        if is_ascii_chars(s@) {
            lemma_any_case(s@);
            assert(ascii_lowered(l) =~= l);
            lemma_any_case(l);
        } else {
            let i: int = choose|i: int| 0 <= i < s@.len() && !('\0' <= #[trigger] s@[i] <= '\u{7f}');
            lemma_not_ascii(s@, i);
            assert(l[i] == ascii_lower(s@[i]));
            lemma_not_ascii(l, i);
        }
    }
    match read_bool(s, lowered.as_str()) {
        Some(b) => Ok(b),
        None => Err(InvalidBool { found: lowered }),
    }
}

/// What the words that are read stand for, in a message to the user.
pub fn expecting() -> (text: &'static str)
    ensures
        text@ == "truthy (t, true, 1, on, y, yes) or falsey (f, false, 0, off, n, no) string"@,
{
    "truthy (t, true, 1, on, y, yes) or falsey (f, false, 0, off, n, no) string"
}

/// The case of ASCII letters does not matter: strings that differ in nothing else are
/// read alike.
pub proof fn lemma_case_does_not_matter(s: Seq<char>, t: Seq<char>)
    requires
        same_but_case(s, t),
    ensures
        reads_as(s) == reads_as(t),
{
    assert(ascii_lowered(s) =~= ascii_lowered(t)) by {
        assert forall|i: int| 0 <= i < s.len() implies ascii_lowered(s)[i] == ascii_lowered(t)[i] by {
            assert(ascii_lower(s[i]) == ascii_lower(t[i]));
        }
    }
}

/// None of the usual spellings holds a character beyond ASCII.
proof fn lemma_not_ascii(s: Seq<char>, i: int)
    requires
        0 <= i < s.len(),
        !('\0' <= s[i] <= '\u{7f}'),
    ensures
        !spells_true(s),
        !spells_false(s),
{
    reveal_strlit("t");
    reveal_strlit("T");
    reveal_strlit("true");
    reveal_strlit("True");
    reveal_strlit("1");
    reveal_strlit("on");
    reveal_strlit("On");
    reveal_strlit("y");
    reveal_strlit("Y");
    reveal_strlit("yes");
    reveal_strlit("Yes");
    reveal_strlit("f");
    reveal_strlit("F");
    reveal_strlit("false");
    reveal_strlit("False");
    reveal_strlit("0");
    reveal_strlit("off");
    reveal_strlit("Off");
    reveal_strlit("n");
    reveal_strlit("N");
    reveal_strlit("no");
    reveal_strlit("No");
}

/// A string that is the word `w` has the lowercase form `l` of that word.
proof fn lemma_word(s: Seq<char>, w: Seq<char>, l: Seq<char>)
    requires
        w.len() == l.len(),
        forall|i: int| 0 <= i < w.len() ==> #[trigger] ascii_lower(w[i]) == l[i],
    ensures
        s == w ==> ascii_lowered(s) == l,
{
    if s == w {
        assert forall|i: int| 0 <= i < w.len() implies ascii_lowered(s)[i] == l[i] by {
            assert(ascii_lower(w[i]) == l[i]);
        }
        assert(ascii_lowered(s) =~= l);
    }
}

/// Only the one-character strings `small` and `large` have the lowercase form `small`.
proof fn lemma_letter(s: Seq<char>, small: Seq<char>, large: Seq<char>)
    requires
        small.len() == 1,
        large.len() == 1,
        ascii_lower(large[0]) == small[0],
        forall|c: char| #[trigger] ascii_lower(c) == small[0] ==> c == small[0] || c == large[0],
        ascii_lower(small[0]) == small[0],
    ensures
        ascii_lowered(s) == small <==> s == small || s == large,
{
    let l: Seq<char> = ascii_lowered(s);
    if l == small {
        assert(s.len() == 1);
        assert(l[0] == ascii_lower(s[0]));
        assert(s =~= small || s =~= large) by {
            if s[0] == small[0] {
                assert(s =~= small);
            } else {
                assert(s =~= large);
            }
        }
    }
    lemma_word(s, small, small);
    lemma_word(s, large, small);
}

/// The words are read in any mix of upper and lower case letters.
pub proof fn lemma_any_case(s: Seq<char>)
    ensures
        truth(s, ascii_lowered(s)) == word_truth(ascii_lowered(s)),
{
    reveal_strlit("t");
    reveal_strlit("T");
    reveal_strlit("true");
    reveal_strlit("True");
    reveal_strlit("1");
    reveal_strlit("on");
    reveal_strlit("On");
    reveal_strlit("y");
    reveal_strlit("Y");
    reveal_strlit("yes");
    reveal_strlit("Yes");
    reveal_strlit("f");
    reveal_strlit("F");
    reveal_strlit("false");
    reveal_strlit("False");
    reveal_strlit("0");
    reveal_strlit("off");
    reveal_strlit("Off");
    reveal_strlit("n");
    reveal_strlit("N");
    reveal_strlit("no");
    reveal_strlit("No");
    lemma_letter(s, "t"@, "T"@);
    lemma_letter(s, "y"@, "Y"@);
    lemma_letter(s, "f"@, "F"@);
    lemma_letter(s, "n"@, "N"@);
    lemma_letter(s, "1"@, "1"@);
    lemma_letter(s, "0"@, "0"@);
    lemma_word(s, "true"@, "true"@);
    lemma_word(s, "True"@, "true"@);
    lemma_word(s, "on"@, "on"@);
    lemma_word(s, "On"@, "on"@);
    lemma_word(s, "yes"@, "yes"@);
    lemma_word(s, "Yes"@, "yes"@);
    lemma_word(s, "false"@, "false"@);
    lemma_word(s, "False"@, "false"@);
    lemma_word(s, "off"@, "off"@);
    lemma_word(s, "Off"@, "off"@);
    lemma_word(s, "no"@, "no"@);
    lemma_word(s, "No"@, "no"@);
    // no word stands for both
    assert("on"@[0] == 'o' && "yes"@[0] == 'y' && "no"@[0] == 'n' && "off"@[0] == 'o');
    assert("t"@[0] == 't' && "1"@[0] == '1' && "y"@[0] == 'y');
    assert("f"@[0] == 'f' && "0"@[0] == '0' && "n"@[0] == 'n');
}

/// Lowering adds 32 to the code of a letter from `A` (65) to `Z` (90) and keeps every other
/// character; a string is lowered character by character.
pub proof fn lemma_lowering(s: Seq<char>, i: int)
    requires
        0 <= i < s.len(),
    ensures
        ascii_lowered(s).len() == s.len(),
        65 <= s[i] as int <= 90 ==> ascii_lowered(s)[i] as int == s[i] as int + 32,
        !(65 <= s[i] as int <= 90) ==> ascii_lowered(s)[i] == s[i],
{
}

/// The usual spellings are read as they are, whatever the lowercase form is said to be. Any
/// other string is read by its lowercase form, and that only if it is a whole word.
pub proof fn lemma_spellings(s: Seq<char>, lowered: Seq<char>)
    ensures
        s == "t"@ || s == "true"@ || s == "1"@ || s == "on"@ || s == "y"@ || s == "yes"@ ==> truth(s, lowered) == Some(
            true,
        ),
        s == "T"@ || s == "True"@ || s == "On"@ || s == "Y"@ || s == "Yes"@ ==> truth(s, lowered) == Some(true),
        s == "f"@ || s == "false"@ || s == "0"@ || s == "off"@ || s == "n"@ || s == "no"@ ==> truth(s, lowered) == Some(
            false,
        ),
        s == "F"@ || s == "False"@ || s == "Off"@ || s == "N"@ || s == "No"@ ==> truth(s, lowered) == Some(false),
        lowered == "true"@ || lowered == "on"@ || lowered == "yes"@ ==> truth(s, lowered) == Some(true)
            || s == "f"@ || s == "F"@ || s == "false"@ || s == "False"@ || s == "0"@ || s == "off"@ || s == "Off"@
            || s == "n"@ || s == "N"@ || s == "no"@ || s == "No"@,
        lowered == "false"@ || lowered == "off"@ || lowered == "no"@ ==> truth(s, lowered) == Some(false)
            || s == "t"@ || s == "T"@ || s == "true"@ || s == "True"@ || s == "1"@ || s == "on"@ || s == "On"@
            || s == "y"@ || s == "Y"@ || s == "yes"@ || s == "Yes"@,
        truth(s, lowered) == Some(true) ==> lowered == "true"@ || lowered == "on"@ || lowered == "yes"@
            || s == "t"@ || s == "T"@ || s == "true"@ || s == "True"@ || s == "1"@ || s == "on"@ || s == "On"@
            || s == "y"@ || s == "Y"@ || s == "yes"@ || s == "Yes"@,
        truth(s, lowered) == Some(false) ==> lowered == "false"@ || lowered == "off"@ || lowered == "no"@
            || s == "f"@ || s == "F"@ || s == "false"@ || s == "False"@ || s == "0"@ || s == "off"@ || s == "Off"@
            || s == "n"@ || s == "N"@ || s == "no"@ || s == "No"@,
{
    lemma_first_letters(s);
    lemma_first_letters(lowered);
}

/// No string is both truthy and falsy: they differ in the first letter or in length.
proof fn lemma_first_letters(s: Seq<char>)
    ensures
        !(spells_true(s) && spells_false(s)),
{
    reveal_strlit("t");
    reveal_strlit("T");
    reveal_strlit("true");
    reveal_strlit("True");
    reveal_strlit("1");
    reveal_strlit("on");
    reveal_strlit("On");
    reveal_strlit("y");
    reveal_strlit("Y");
    reveal_strlit("yes");
    reveal_strlit("Yes");
    reveal_strlit("f");
    reveal_strlit("F");
    reveal_strlit("false");
    reveal_strlit("False");
    reveal_strlit("0");
    reveal_strlit("off");
    reveal_strlit("Off");
    reveal_strlit("n");
    reveal_strlit("N");
    reveal_strlit("no");
    reveal_strlit("No");
    if spells_true(s) {
        assert(s[0] == 't' || s[0] == 'T' || s[0] == '1' || s[0] == 'y' || s[0] == 'Y' || s.len() == 2 && (s[0] == 'o'
            || s[0] == 'O'));
    }
    if spells_false(s) {
        assert(s[0] == 'f' || s[0] == 'F' || s[0] == '0' || s[0] == 'n' || s[0] == 'N' || s.len() == 3);
    }
}

/// A string of ASCII characters is truthy or falsy exactly if it is one of the words, in any
/// mix of upper and lower case letters.
pub proof fn lemma_words(s: Seq<char>)
    ensures
        ({
            let w = ascii_lowered(s);
            &&& truth(s, w) == Some(true) <==> w == "t"@ || w == "true"@ || w == "1"@ || w == "on"@ || w == "y"@ || w
                == "yes"@
            &&& truth(s, w) == Some(false) <==> w == "f"@ || w == "false"@ || w == "0"@ || w == "off"@ || w == "n"@ || w
                == "no"@
            &&& word_truth(w) == truth(s, w)
        }),
{
    lemma_any_case(s);
    lemma_first_letters(ascii_lowered(s));
}

/// What a string says is decided by its form with `A` to `Z` lowered: by that form itself if
/// it is one of the words, and otherwise by its lowercase form.
pub proof fn lemma_reading(s: Seq<char>)
    ensures
        ({
            let w = ascii_lowered(s);
            let l = lowercase(w);
            let yes = w == "t"@ || w == "true"@ || w == "1"@ || w == "on"@ || w == "y"@ || w == "yes"@;
            let no = w == "f"@ || w == "false"@ || w == "0"@ || w == "off"@ || w == "n"@ || w == "no"@;
            &&& yes ==> reads_as(s) == Some(true)
            &&& no ==> reads_as(s) == Some(false)
            &&& !yes && !no && (l == "true"@ || l == "on"@ || l == "yes"@) ==> reads_as(s) == Some(true)
            &&& !yes && !no && (l == "false"@ || l == "off"@ || l == "no"@) ==> reads_as(s) == Some(false)
            &&& reads_as(s) == Some(true) ==> yes || l == "true"@ || l == "on"@ || l == "yes"@
            &&& reads_as(s) == Some(false) ==> no || l == "false"@ || l == "off"@ || l == "no"@
        }),
{
    let w: Seq<char> = ascii_lowered(s);
    assert(ascii_lowered(w) =~= w);
    lemma_spellings(w, lowercase(w));
    lemma_words(w);
    lemma_first_letters(w);
    lemma_not_capital(s);
}

/// A lowered string is none of the spellings that begin with a capital.
proof fn lemma_not_capital(s: Seq<char>)
    ensures
        ({
            let w = ascii_lowered(s);
            &&& w != "T"@ && w != "True"@ && w != "On"@ && w != "Y"@ && w != "Yes"@
            &&& w != "F"@ && w != "False"@ && w != "Off"@ && w != "N"@ && w != "No"@
        }),
{
    reveal_strlit("T");
    reveal_strlit("True");
    reveal_strlit("On");
    reveal_strlit("Y");
    reveal_strlit("Yes");
    reveal_strlit("F");
    reveal_strlit("False");
    reveal_strlit("Off");
    reveal_strlit("N");
    reveal_strlit("No");
    let w: Seq<char> = ascii_lowered(s);
    if w.len() > 0 {
        assert(w[0] == ascii_lower(s[0]));
        assert(!('A' <= w[0] <= 'Z'));
    }
}

} // verus!
