//! Turning text into a URL slug: lower-case ASCII letters separated by
//! single dashes.
use vstd::prelude::*;

verus! {

/// Accented letters that have an ASCII counterpart.
pub const ACCENTED: &'static str = "àáâäæãåāăąçćčđďèéêëēėęěğǵḧîïíīįìıİłḿñńǹňôöòóœøōõőṕŕřßśšşșťțûüùúūǘůűųẃẍÿýžźż";

/// The ASCII letter for each entry of `ACCENTED`, at the same position.
pub const PLAIN: &'static str = "aaaaaaaaaacccddeeeeeeeegghiiiiiiiilmnnnnoooooooooprrsssssttuuuuuuuuuwxyyzzz";

/// What `char::to_ascii_lowercase` returns.
pub open spec fn ascii_lower(c: char) -> char {
    if 'A' <= c <= 'Z' {
        ((c as u32) + 32) as char
    } else {
        c
    }
}

/// Relies on char::to_ascii_lowercase: 'A'..='Z' map to 'a'..='z', every
/// other character is returned as it is.
#[verifier::external_body]
fn to_ascii_lower(c: char) -> (r: char)
    ensures
        r == ascii_lower(c),
{
    c.to_ascii_lowercase()
}

/// The first position of `c` in `s`, if any.
pub open spec fn position(s: Seq<char>, c: char) -> Option<nat>
    decreases s.len(),
{
    if s.len() == 0 {
        None
    } else if s[0] == c {
        Some(0)
    } else {
        match position(s.drop_first(), c) {
            Some(p) => Some(p + 1),
            None => None,
        }
    }
}

/// The slug character for `c`: the plain letter of an accented one, the
/// lower-case form of an ASCII letter, and `-` for anything else.
pub open spec fn conv_spec(c: char) -> char {
    match position(ACCENTED@, c) {
        Some(p) => if p < PLAIN@.len() {
            ascii_lower(PLAIN@[p as int])
        } else {
            '-'
        },
        None => if 'a' <= ascii_lower(c) <= 'z' {
            ascii_lower(c)
        } else {
            '-'
        },
    }
}

/// The text built from `s` before a trailing dash is removed, and whether
/// its last character came from a separator.
pub open spec fn slug_prefix(s: Seq<char>) -> (Seq<char>, bool)
    decreases s.len(),
{
    if s.len() == 0 {
        (Seq::empty(), false)
    } else {
        let (acc, dash) = slug_prefix(s.drop_last());
        let d = conv_spec(s.last());
        if d != '-' {
            (acc.push(d), false)
        } else if !dash && acc.len() > 0 {
            (acc.push('-'), true)
        } else {
            (acc, dash)
        }
    }
}

/// The slug of `s`: converted characters, each run of separators collapsed to
/// one dash, with no dash at the start or the end.
pub open spec fn slug(s: Seq<char>) -> Seq<char> {
    let acc = slug_prefix(s).0;
    if acc.len() > 0 && acc.last() == '-' {
        acc.drop_last()
    } else {
        acc
    }
}

/// Relies on FromIterator<char> for String: the string holds the characters
/// in order.
#[verifier::external_body]
pub(crate) fn string_from_chars(chars: &Vec<char>) -> (r: String)
    ensures
        r@ == chars@,
{
    chars.iter().collect()
}

fn position_in(s: &str, c: char) -> (r: Option<usize>)
    ensures
        r is Some <==> position(s@, c) is Some,
        r matches Some(p) ==> position(s@, c) == Some(p as nat),
{
    let n = s.unicode_len();
    let mut i: usize = 0;
    assert(s@.subrange(0, n as int) =~= s@);
    while i < n
        invariant
            n == s@.len(),
            i <= n,
            position(s@, c) == match position(s@.subrange(i as int, n as int), c) {
                Some(p) => Some((p + i) as nat),
                None => None::<nat>,
            },
        decreases n - i,
    {
        let x = s.get_char(i);
        if x == c {
            return Some(i);
        }
        assert(s@.subrange(i as int, n as int).drop_first() =~= s@.subrange(i + 1, n as int));
        i = i + 1;
    }
    None
}

/// Maps one character to its slug character.
pub fn conv(c: char) -> (r: char)
    ensures
        r == conv_spec(c),
{
    match position_in(ACCENTED, c) {
        Some(p) => {
            if p < PLAIN.unicode_len() {
                to_ascii_lower(PLAIN.get_char(p))
            } else {
                '-'
            }
        },
        None => {
            let cl = to_ascii_lower(c);
            if 'a' <= cl && cl <= 'z' {
                cl
            } else {
                '-'
            }
        },
    }
}

/// The slug of `s`.
pub fn slugify(s: &str) -> (r: String)
    ensures
        r@ == slug(s@),
{
    let n = s.unicode_len();
    let mut result: Vec<char> = Vec::new();
    let mut prev_was_dash = false;
    let mut i: usize = 0;
    while i < n
        invariant
            n == s@.len(),
            i <= n,
            (result@, prev_was_dash) == slug_prefix(s@.subrange(0, i as int)),
        decreases n - i,
    {
        let c = s.get_char(i);
        let converted = conv(c);
        assert(s@.subrange(0, i + 1).drop_last() =~= s@.subrange(0, i as int));
        if converted == '-' {
            if !prev_was_dash && result.len() > 0 {
                result.push('-');
                prev_was_dash = true;
            }
        } else {
            result.push(converted);
            prev_was_dash = false;
        }
        i = i + 1;
    }
    assert(s@.subrange(0, n as int) =~= s@);
    if result.len() > 0 && result[result.len() - 1] == '-' {
        result.pop();
    }
    string_from_chars(&result)
}

/// Whether `s` is already its own slug.
pub fn is_slug(s: &str) -> (r: bool)
    ensures
        r == (s@ == slug(s@)),
{
    let t = slugify(s);
    let owned = s.to_owned();
    owned == t
}

} // verus!
