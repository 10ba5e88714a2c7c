//! Text rules of the downloader: filename sanitization, the archive entry
//! names, the episode archive filename, and the failure-message and URL
//! building blocks.

use vstd::prelude::*;
use vstd::string::*;

verus! {

/// Characters stripped from a title before it is used as a filename:
/// path separators, glob and wildcard characters, quotes, angle brackets,
/// the pipe, and whitespace.
pub open spec fn is_stripped_char(c: char) -> bool {
    ||| c == '\\'
    ||| c == '/'
    ||| c == ':'
    ||| c == '*'
    ||| c == '?'
    ||| c == '"'
    ||| c == '<'
    ||| c == '>'
    ||| c == '|'
    ||| is_whitespace_char(c)
}

/// The whitespace characters (the Unicode `White_Space` set).
pub open spec fn is_whitespace_char(c: char) -> bool {
    ||| c == '\t'
    ||| c == '\n'
    ||| c == '\u{b}'
    ||| c == '\u{c}'
    ||| c == '\r'
    ||| c == ' '
    ||| c == '\u{85}'
    ||| c == '\u{a0}'
    ||| c == '\u{1680}'
    ||| ('\u{2000}' <= c && c <= '\u{200a}')
    ||| c == '\u{2028}'
    ||| c == '\u{2029}'
    ||| c == '\u{202f}'
    ||| c == '\u{205f}'
    ||| c == '\u{3000}'
}

/// A sanitized title: the stripped characters are removed, the rest is
/// kept in order.
pub open spec fn sanitize_spec(s: Seq<char>) -> Seq<char> {
    s.filter(|c: char| !is_stripped_char(c))
}

fn is_stripped(c: char) -> (r: bool)
    ensures
        r == is_stripped_char(c),
{
    c == '\\' || c == '/' || c == ':' || c == '*' || c == '?' || c == '"' || c == '<' || c == '>'
        || c == '|' || c == '\t' || c == '\n' || c == '\u{b}' || c == '\u{c}' || c == '\r'
        || c == ' ' || c == '\u{85}' || c == '\u{a0}' || c == '\u{1680}'
        || ('\u{2000}' <= c && c <= '\u{200a}') || c == '\u{2028}' || c == '\u{2029}'
        || c == '\u{202f}' || c == '\u{205f}' || c == '\u{3000}'
}

/// Strip filesystem-unsafe characters and whitespace from a title.
pub fn get_safe_filename(filename: &str) -> (r: String)
    ensures
        r@ == sanitize_spec(filename@),
{
    let n = filename.unicode_len();
    let mut r = String::new();
    let mut i: usize = 0;
    while i < n
        invariant
            n == filename@.len(),
            i <= n,
            r@ == sanitize_spec(filename@.subrange(0, i as int)),
        decreases n - i,
    {
        let c = filename.get_char(i);
        if !is_stripped(c) {
            let piece = filename.substring_char(i, i + 1);
            proof {
                assert(piece@ =~= seq![c]);
            }
            r.append(piece);
        }
        proof {
            reveal(Seq::filter);
            let pre = filename@.subrange(0, i as int);
            let pre1 = filename@.subrange(0, i + 1 as int);
            assert(pre1.drop_last() =~= pre);
            assert(pre1.last() == c);
            if !is_stripped_char(c) {
                assert(sanitize_spec(pre1) =~= sanitize_spec(pre).push(c));
            } else {
                assert(sanitize_spec(pre1) =~= sanitize_spec(pre));
            }
        }
        i += 1;
    }
    proof {
        assert(filename@.subrange(0, n as int) =~= filename@);
    }
    r
}

/// A filter keeps a sequence whose elements all satisfy the predicate.
proof fn lemma_filter_of_all_kept<A>(s: Seq<A>, pred: spec_fn(A) -> bool)
    requires
        forall|i: int| 0 <= i < s.len() ==> pred(s[i]),
    ensures
        s.filter(pred) == s,
    decreases s.len(),
{
    reveal(Seq::filter);
    if s.len() == 0 {
        assert(s.filter(pred) =~= s);
    } else {
        lemma_filter_of_all_kept(s.drop_last(), pred);
        assert(pred(s.last()));
        assert(s.filter(pred) =~= s.drop_last().push(s.last()));
        assert(s.drop_last().push(s.last()) =~= s);
    }
}

/// Sanitization is idempotent: sanitizing an already-sanitized title
/// returns the same string.
pub proof fn lemma_sanitize_idempotent(s: Seq<char>)
    ensures
        sanitize_spec(sanitize_spec(s)) == sanitize_spec(s),
{
    let pred = |c: char| !is_stripped_char(c);
    let once = s.filter(pred);
    assert forall|i: int| 0 <= i < once.len() implies pred(once[i]) by {
        s.lemma_filter_pred(pred, i);
    }
    lemma_filter_of_all_kept(once, pred);
}

/// The decimal digit as a character.
pub open spec fn dec_digit_char(d: nat) -> char {
    if d == 0 {
        '0'
    } else if d == 1 {
        '1'
    } else if d == 2 {
        '2'
    } else if d == 3 {
        '3'
    } else if d == 4 {
        '4'
    } else if d == 5 {
        '5'
    } else if d == 6 {
        '6'
    } else if d == 7 {
        '7'
    } else if d == 8 {
        '8'
    } else {
        '9'
    }
}

/// The decimal rendering of a number, most significant digit first, with
/// no leading zeroes (a single zero for 0).
pub open spec fn dec_str(n: nat) -> Seq<char>
    decreases n,
{
    if n < 10 {
        seq![dec_digit_char(n)]
    } else {
        dec_str(n / 10).push(dec_digit_char(n % 10))
    }
}

fn digit_to_str(d: usize) -> (r: &'static str)
    requires
        d < 10,
    ensures
        r@ == seq![dec_digit_char(d as nat)],
{
    if d == 0 {
        proof { reveal_strlit("0"); assert("0"@ =~= seq![dec_digit_char(0)]); }
        "0"
    } else if d == 1 {
        proof { reveal_strlit("1"); assert("1"@ =~= seq![dec_digit_char(1)]); }
        "1"
    } else if d == 2 {
        proof { reveal_strlit("2"); assert("2"@ =~= seq![dec_digit_char(2)]); }
        "2"
    } else if d == 3 {
        proof { reveal_strlit("3"); assert("3"@ =~= seq![dec_digit_char(3)]); }
        "3"
    } else if d == 4 {
        proof { reveal_strlit("4"); assert("4"@ =~= seq![dec_digit_char(4)]); }
        "4"
    } else if d == 5 {
        proof { reveal_strlit("5"); assert("5"@ =~= seq![dec_digit_char(5)]); }
        "5"
    } else if d == 6 {
        proof { reveal_strlit("6"); assert("6"@ =~= seq![dec_digit_char(6)]); }
        "6"
    } else if d == 7 {
        proof { reveal_strlit("7"); assert("7"@ =~= seq![dec_digit_char(7)]); }
        "7"
    } else if d == 8 {
        proof { reveal_strlit("8"); assert("8"@ =~= seq![dec_digit_char(8)]); }
        "8"
    } else {
        proof { reveal_strlit("9"); assert("9"@ =~= seq![dec_digit_char(9)]); }
        "9"
    }
}

/// Render a number in decimal.
pub fn usize_to_string(n: usize) -> (r: String)
    ensures
        r@ == dec_str(n as nat),
    decreases n,
{
    if n < 10 {
        String::from_str(digit_to_str(n))
    } else {
        proof {
            assert(n / 10 < n) by (nonlinear_arith)
                requires n >= 10;
        }
        let mut r = usize_to_string(n / 10);
        r.append(digit_to_str(n % 10));
        proof {
            assert(dec_str((n / 10) as nat) + seq![dec_digit_char((n % 10) as nat)]
                =~= dec_str((n / 10) as nat).push(dec_digit_char((n % 10) as nat)));
        }
        r
    }
}

/// Text whose characters are all ASCII, so that its byte length equals
/// its character count.
pub open spec fn ascii_text(s: Seq<char>) -> bool {
    forall|i: int| 0 <= i < s.len() ==> ((#[trigger] s[i]) as int) < 128
}

/// Powers of ten, for bounding how many digits a number needs.
pub open spec fn pow10(k: nat) -> nat
    decreases k,
{
    if k == 0 {
        1
    } else {
        10 * pow10((k - 1) as nat)
    }
}

/// A number below the k-th power of ten needs at most k digits.
pub proof fn lemma_dec_str_len(n: nat, k: nat)
    requires
        k >= 1,
        n < pow10(k),
    ensures
        dec_str(n).len() <= k,
    decreases n,
{
    if n >= 10 {
        assert(pow10(1) == 10 * pow10(0));
        if k == 1 {
            assert(false);
        }
        assert(pow10(k) == 10 * pow10((k - 1) as nat));
        if n / 10 >= pow10((k - 1) as nat) {
            assert(10 * (n / 10) >= 10 * pow10((k - 1) as nat)) by (nonlinear_arith)
                requires n / 10 >= pow10((k - 1) as nat);
            vstd::arithmetic::div_mod::lemma_fundamental_div_mod(n as int, 10);
            assert(false);
        }
        lemma_dec_str_len(n / 10, (k - 1) as nat);
    }
}

/// A decimal rendering is ASCII throughout.
pub proof fn lemma_dec_str_ascii(n: nat)
    ensures
        ascii_text(dec_str(n)),
    decreases n,
{
    if n >= 10 {
        lemma_dec_str_ascii(n / 10);
    }
}

/// A decimal rendering always has at least one digit.
pub proof fn lemma_dec_str_nonempty(n: nat)
    ensures
        dec_str(n).len() >= 1,
{
}

/// Distinct numbers render to distinct decimal texts.
pub proof fn lemma_dec_str_injective(a: nat, b: nat)
    requires
        dec_str(a) == dec_str(b),
    ensures
        a == b,
    decreases a,
{
    if a < 10 && b < 10 {
        assert(dec_str(a)[0] == dec_digit_char(a));
        assert(dec_str(b)[0] == dec_digit_char(b));
        assert(dec_digit_char(a) == dec_digit_char(b));
        lemma_digit_injective(a, b);
    } else if a < 10 {
        lemma_dec_str_nonempty(b / 10);
        assert(dec_str(b).len() == dec_str(b / 10).len() + 1);
        assert(false);
    } else if b < 10 {
        lemma_dec_str_nonempty(a / 10);
        assert(dec_str(a).len() == dec_str(a / 10).len() + 1);
        assert(false);
    } else {
        assert(dec_str(a) == dec_str(a / 10).push(dec_digit_char(a % 10)));
        assert(dec_str(b) == dec_str(b / 10).push(dec_digit_char(b % 10)));
        assert(dec_str(a).last() == dec_digit_char(a % 10));
        assert(dec_str(b).last() == dec_digit_char(b % 10));
        lemma_digit_injective(a % 10, b % 10);
        assert(a % 10 == b % 10);
        assert(dec_str(a).drop_last() =~= dec_str(a / 10));
        assert(dec_str(b).drop_last() =~= dec_str(b / 10));
        lemma_dec_str_injective(a / 10, b / 10);
        vstd::arithmetic::div_mod::lemma_fundamental_div_mod(a as int, 10);
        vstd::arithmetic::div_mod::lemma_fundamental_div_mod(b as int, 10);
        assert(a == 10 * (a / 10) + (a % 10));
        assert(b == 10 * (b / 10) + (b % 10));
    }
}

/// Distinct digits have distinct characters.
proof fn lemma_digit_injective(x: nat, y: nat)
    requires
        x < 10,
        y < 10,
        dec_digit_char(x) == dec_digit_char(y),
    ensures
        x == y,
{
}

/// The name of the archive entry at a position: the position in decimal
/// plus the image extension.
pub open spec fn entry_name_spec(i: nat) -> Seq<char> {
    dec_str(i) + ".jpg"@
}

/// An entry name is short ASCII text: it fits the archive format's name
/// field (a 16-bit byte length) with room to spare.
pub proof fn lemma_entry_name_wellformed(i: nat)
    requires
        i <= 0xFFFF_FFFF_FFFF_FFFF,
    ensures
        ascii_text(entry_name_spec(i)),
        entry_name_spec(i).len() <= 24,
{
    reveal_with_fuel(pow10, 21);
    assert(i < pow10(20));
    lemma_dec_str_len(i, 20);
    lemma_dec_str_ascii(i);
    proof_jpg_ext_ascii();
    assert forall|j: int| 0 <= j < entry_name_spec(i).len() implies ((#[trigger] entry_name_spec(
        i,
    )[j]) as int) < 128 by {
        if j < dec_str(i).len() {
            assert(entry_name_spec(i)[j] == dec_str(i)[j]);
        } else {
            assert(entry_name_spec(i)[j] == ".jpg"@[j - dec_str(i).len()]);
        }
    }
}

/// The image extension's characters, pinned from the literal.
proof fn proof_jpg_ext_ascii()
    ensures
        ".jpg"@.len() == 4,
        forall|j: int| 0 <= j < 4 ==> ((#[trigger] ".jpg"@[j]) as int) < 128,
{
    reveal_strlit(".jpg");
    assert(".jpg"@ =~= seq!['.', 'j', 'p', 'g']);
    assert forall|j: int| 0 <= j < 4 implies ((#[trigger] ".jpg"@[j]) as int) < 128 by {
        assert(".jpg"@[j] == seq!['.', 'j', 'p', 'g'][j]);
    }
}

/// Distinct positions get distinct entry names.
pub proof fn lemma_entry_names_distinct(i: nat, j: nat)
    requires
        i != j,
    ensures
        entry_name_spec(i) != entry_name_spec(j),
{
    if entry_name_spec(i) == entry_name_spec(j) {
        assert(entry_name_spec(i).len() == dec_str(i).len() + ".jpg"@.len());
        assert(entry_name_spec(j).len() == dec_str(j).len() + ".jpg"@.len());
        assert(dec_str(i).len() == dec_str(j).len());
        assert forall|k: int| 0 <= k < dec_str(i).len() implies dec_str(i)[k] == dec_str(
            j,
        )[k] by {
            assert(entry_name_spec(i)[k] == dec_str(i)[k]);
            assert(entry_name_spec(j)[k] == dec_str(j)[k]);
        }
        assert(dec_str(i) =~= dec_str(j));
        lemma_dec_str_injective(i, j);
    }
}

/// Build the archive entry name for a position.
pub fn entry_name(i: usize) -> (r: String)
    ensures
        r@ == entry_name_spec(i as nat),
{
    let mut r = usize_to_string(i);
    r.append(".jpg");
    r
}

/// The archive filename of an episode: the ordinal in brackets, the
/// sanitized title, and the archive extension.
pub open spec fn episode_filename_spec(ord: Seq<char>, title: Seq<char>) -> Seq<char> {
    "["@ + ord + "]"@ + sanitize_spec(title) + ".zip"@
}

/// Build the archive filename of an episode from its ordinal text and its
/// raw title.
pub fn episode_filename(ord: &str, title: &str) -> (r: String)
    ensures
        r@ == episode_filename_spec(ord@, title@),
{
    let mut r = String::from_str("[");
    r.append(ord);
    r.append("]");
    let safe = get_safe_filename(title);
    r.append(safe.as_str());
    r.append(".zip");
    proof {
        assert(r@ =~= episode_filename_spec(ord@, title@));
    }
    r
}

/// A resource locator carrying its short-lived access token as a query
/// parameter.
pub open spec fn tokened_locator_spec(url: Seq<char>, token: Seq<char>) -> Seq<char> {
    url + "?token="@ + token
}

/// Attach an access token to a resource URL.
pub fn tokened_locator(url: &str, token: &str) -> (r: String)
    ensures
        r@ == tokened_locator_spec(url@, token@),
{
    let mut r = String::from_str(url);
    r.append("?token=");
    r.append(token);
    proof {
        assert(r@ =~= tokened_locator_spec(url@, token@));
    }
    r
}

/// Attach each access token to its resource URL, in order.
pub fn tokened_locators(items: &Vec<(String, String)>) -> (r: Vec<String>)
    ensures
        r@.len() == items@.len(),
        forall|i: int| 0 <= i < items@.len()
            ==> #[trigger] r@[i]@ == tokened_locator_spec(items@[i].0@, items@[i].1@),
{
    let mut r: Vec<String> = Vec::new();
    let n = items.len();
    let mut i: usize = 0;
    while i < n
        invariant
            n == items@.len(),
            i <= n,
            r@.len() == i,
            forall|j: int| 0 <= j < i
                ==> #[trigger] r@[j]@ == tokened_locator_spec(items@[j].0@, items@[j].1@),
        decreases n - i,
    {
        let loc = tokened_locator(items[i].0.as_str(), items[i].1.as_str());
        r.push(loc);
        i += 1;
    }
    r
}

/// The failure line of an episode whose locator list could not be
/// resolved.
pub open spec fn resolve_failed_tag() -> Seq<char> {
    " locator resolution failed"@
}

/// The failure line of an episode one of whose resource fetches failed.
pub open spec fn download_failed_tag() -> Seq<char> {
    " download failed"@
}

/// The failure line of an episode whose archive could not be written.
pub open spec fn write_failed_tag() -> Seq<char> {
    " archive write failed"@
}

/// The failure message of the locator-resolution stage, naming the
/// episode by its archive filename.
pub fn resolve_failed_message(filename: &String) -> (r: String)
    ensures
        r@ == filename@ + resolve_failed_tag(),
{
    filename.clone().concat(" locator resolution failed")
}

/// The failure message of the download stage, naming the episode by its
/// archive filename.
pub fn download_failed_message(filename: &String) -> (r: String)
    ensures
        r@ == filename@ + download_failed_tag(),
{
    filename.clone().concat(" download failed")
}

/// The failure message of the archive-write stage, naming the episode by
/// its archive filename.
pub fn write_failed_message(filename: &String) -> (r: String)
    ensures
        r@ == filename@ + write_failed_tag(),
{
    filename.clone().concat(" archive write failed")
}

/// The credential cookie line sent with each catalog request.
pub fn session_cookie(cookie: &str) -> (r: String)
    ensures
        r@ == "SESSDATA="@ + cookie@,
{
    let mut r = String::from_str("SESSDATA=");
    r.append(cookie);
    r
}

} // verus!
