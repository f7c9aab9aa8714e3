//! Path-string helpers: lexicographic ordering, image-extension tests,
//! hidden-file detection and webview path rewriting.

use vstd::prelude::*;
use vstd::string::*;

verus! {

/// Strict lexicographic order on character sequences, comparing characters
/// by Unicode scalar value; a proper prefix precedes its extensions.
pub open spec fn lex_lt(a: Seq<char>, b: Seq<char>) -> bool
    decreases a.len(),
{
    if b.len() == 0 {
        false
    } else if a.len() == 0 {
        true
    } else if a[0] == b[0] {
        lex_lt(a.drop_first(), b.drop_first())
    } else {
        (a[0] as u32) < (b[0] as u32)
    }
}

pub proof fn lemma_lex_lt_irrefl(a: Seq<char>)
    ensures
        !lex_lt(a, a),
    decreases a.len(),
{
    if a.len() > 0 {
        lemma_lex_lt_irrefl(a.drop_first());
    }
}

pub proof fn lemma_lex_lt_trans(a: Seq<char>, b: Seq<char>, c: Seq<char>)
    requires
        lex_lt(a, b),
        lex_lt(b, c),
    ensures
        lex_lt(a, c),
    decreases a.len(),
{
    if a.len() == 0 {
    } else if b.len() == 0 {
    } else if c.len() == 0 {
    } else {
        if a[0] == b[0] && b[0] == c[0] {
            lemma_lex_lt_trans(a.drop_first(), b.drop_first(), c.drop_first());
        }
    }
}

/// Two sequences neither of which precedes the other are equal.
pub proof fn lemma_lex_lt_connected(a: Seq<char>, b: Seq<char>)
    requires
        !lex_lt(a, b),
        !lex_lt(b, a),
    ensures
        a == b,
    decreases a.len(),
{
    if a.len() == 0 && b.len() == 0 {
        assert(a =~= b);
    } else if a.len() > 0 && b.len() > 0 {
        vstd::utf8::char_u32_cast(a[0], a[0] as u32);
        vstd::utf8::char_u32_cast(b[0], b[0] as u32);
        assert(a[0] == b[0]);
        lemma_lex_lt_connected(a.drop_first(), b.drop_first());
        assert(a =~= seq![a[0]] + a.drop_first());
        assert(b =~= seq![b[0]] + b.drop_first());
    }
}

pub proof fn lemma_lex_lt_asym(a: Seq<char>, b: Seq<char>)
    requires
        lex_lt(a, b),
    ensures
        !lex_lt(b, a),
{
    if lex_lt(b, a) {
        lemma_lex_lt_trans(a, b, a);
        lemma_lex_lt_irrefl(a);
    }
}

/// When the first `i` characters agree, the order is decided by the rest.
pub proof fn lemma_lex_lt_from_index(a: Seq<char>, b: Seq<char>, i: int)
    requires
        0 <= i <= a.len(),
        i <= b.len(),
        forall|j: int| 0 <= j < i ==> a[j] == b[j],
    ensures
        lex_lt(a, b) == lex_lt(a.skip(i), b.skip(i)),
    decreases i,
{
    if i == 0 {
        assert(a.skip(0) =~= a);
        assert(b.skip(0) =~= b);
    } else {
        assert(a[0] == b[0]);
        assert(a.drop_first().skip(i - 1) =~= a.skip(i));
        assert(b.drop_first().skip(i - 1) =~= b.skip(i));
        lemma_lex_lt_from_index(a.drop_first(), b.drop_first(), i - 1);
    }
}

/// Decides `lex_lt` on two strings.
pub fn str_lt(a: &str, b: &str) -> (r: bool)
    ensures
        r == lex_lt(a@, b@),
{
    let la = a.unicode_len();
    let lb = b.unicode_len();
    let mut i: usize = 0;
    while i < la && i < lb
        invariant
            la == a@.len(),
            lb == b@.len(),
            i <= la,
            i <= lb,
            forall|j: int| 0 <= j < i ==> a@[j] == b@[j],
        decreases la - i,
    {
        let ca = a.get_char(i);
        let cb = b.get_char(i);
        if ca != cb {
            proof {
                lemma_lex_lt_from_index(a@, b@, i as int);
            }
            return (ca as u32) < (cb as u32);
        }
        i = i + 1;
    }
    proof {
        lemma_lex_lt_from_index(a@, b@, i as int);
    }
    la < lb
}

/// A path separator; both the slash and the backslash are treated as one.
pub open spec fn is_sep(c: char) -> bool {
    c == '/' || c == '\\'
}

/// The final component of a path: everything after the last separator.
pub open spec fn file_name_of(p: Seq<char>) -> Seq<char>
    decreases p.len(),
{
    if p.len() == 0 {
        p
    } else if is_sep(p.last()) {
        Seq::empty()
    } else {
        file_name_of(p.drop_last()).push(p.last())
    }
}

/// Index of the last `.` in a file name, provided it is not the leading
/// character; a name whose only dot leads it has no extension.
pub open spec fn last_dot_split(name: Seq<char>) -> Option<int>
    decreases name.len(),
{
    if name.len() <= 1 {
        None
    } else if name.last() == '.' {
        Some(name.len() - 1)
    } else {
        last_dot_split(name.drop_last())
    }
}

/// The extension of a file name: what follows the last dot, if any.
pub open spec fn ext_of(name: Seq<char>) -> Option<Seq<char>> {
    match last_dot_split(name) {
        Some(i) => Some(name.skip(i + 1)),
        None => None,
    }
}

/// A character equal to one of the two cases of a letter.
pub open spec fn ci(c: char, lo: char, up: char) -> bool {
    c == lo || c == up
}

/// One of the recognized image extensions, compared without regard to
/// ASCII case: `jpg`, `jpeg` or `png`.
pub open spec fn is_image_ext(e: Seq<char>) -> bool {
    ||| (e.len() == 3 && ci(e[0], 'j', 'J') && ci(e[1], 'p', 'P') && ci(e[2], 'g', 'G'))
    ||| (e.len() == 4 && ci(e[0], 'j', 'J') && ci(e[1], 'p', 'P') && ci(e[2], 'e', 'E') && ci(
        e[3],
        'g',
        'G',
    ))
    ||| (e.len() == 3 && ci(e[0], 'p', 'P') && ci(e[1], 'n', 'N') && ci(e[2], 'g', 'G'))
}

/// Whether a path's file name carries one of the recognized image
/// extensions.
pub open spec fn is_image_path(p: Seq<char>) -> bool {
    match ext_of(file_name_of(p)) {
        Some(e) => is_image_ext(e),
        None => false,
    }
}

proof fn lemma_file_name_skip(p: Seq<char>, s: int)
    requires
        0 <= s <= p.len(),
        forall|j: int| s <= j < p.len() ==> !is_sep(p[j]),
        s > 0 ==> is_sep(p[s - 1]),
    ensures
        file_name_of(p) == p.skip(s),
    decreases p.len(),
{
    if p.len() == s {
        if s == 0 {
            assert(p.skip(0) =~= p);
        } else {
            assert(file_name_of(p) =~= p.skip(s));
        }
    } else {
        assert(!is_sep(p.last()));
        lemma_file_name_skip(p.drop_last(), s);
        assert(p.drop_last().skip(s).push(p.last()) =~= p.skip(s));
    }
}

proof fn lemma_last_dot_some(name: Seq<char>, k: int)
    requires
        1 <= k < name.len(),
        name[k] == '.',
        forall|j: int| k < j < name.len() ==> name[j] != '.',
    ensures
        last_dot_split(name) == Some(k),
    decreases name.len(),
{
    if k == name.len() - 1 {
    } else {
        assert(name.last() != '.');
        lemma_last_dot_some(name.drop_last(), k);
    }
}

proof fn lemma_last_dot_none(name: Seq<char>)
    requires
        forall|j: int| 1 <= j < name.len() ==> name[j] != '.',
    ensures
        last_dot_split(name) is None,
    decreases name.len(),
{
    if name.len() > 1 {
        assert(name.last() != '.');
        lemma_last_dot_none(name.drop_last());
    }
}

fn char_is_sep(c: char) -> (r: bool)
    ensures
        r == is_sep(c),
{
    c == '/' || c == '\\'
}

/// Whether the path names a file with a `jpg`, `jpeg` or `png` extension,
/// in any mix of ASCII case.
pub fn has_image_extension(path: &str) -> (r: bool)
    ensures
        r == is_image_path(path@),
{
    let n = path.unicode_len();
    // Start of the file name: one past the last separator.
    let mut s: usize = n;
    while s > 0 && !char_is_sep(path.get_char(s - 1))
        invariant
            n == path@.len(),
            s <= n,
            forall|j: int| s <= j < n ==> !is_sep(path@[j]),
        decreases s,
    {
        s = s - 1;
    }
    proof {
        lemma_file_name_skip(path@, s as int);
    }
    let ghost name = path@.skip(s as int);
    // Last dot strictly inside the file name.
    let mut have_dot = false;
    let mut dot: usize = 0;
    let mut j: usize = if s < n {
        s + 1
    } else {
        n
    };
    let ghost j0 = j as int;
    while j < n
        invariant
            n == path@.len(),
            j0 <= j <= n,
            j0 == if s < n {
                s + 1
            } else {
                n as int
            },
            s <= n,
            have_dot ==> j0 <= dot < j && path@[dot as int] == '.' && forall|k: int|
                dot < k < j ==> path@[k] != '.',
            !have_dot ==> forall|k: int| j0 <= k < j ==> path@[k] != '.',
        decreases n - j,
    {
        if path.get_char(j) == '.' {
            dot = j;
            have_dot = true;
        }
        j = j + 1;
    }
    if !have_dot {
        proof {
            lemma_last_dot_none(name);
        }
        return false;
    }
    proof {
        lemma_last_dot_some(name, dot - s);
        assert(name.skip(dot - s + 1) =~= path@.skip(dot + 1));
    }
    let ghost e = path@.skip(dot + 1);
    let m = n - (dot + 1);
    if m == 3 {
        let c0 = path.get_char(dot + 1);
        let c1 = path.get_char(dot + 2);
        let c2 = path.get_char(dot + 3);
        assert(c0 == e[0] && c1 == e[1] && c2 == e[2]);
        ((c0 == 'j' || c0 == 'J') && (c1 == 'p' || c1 == 'P') && (c2 == 'g' || c2 == 'G')) || ((c0
            == 'p' || c0 == 'P') && (c1 == 'n' || c1 == 'N') && (c2 == 'g' || c2 == 'G'))
    } else if m == 4 {
        let c0 = path.get_char(dot + 1);
        let c1 = path.get_char(dot + 2);
        let c2 = path.get_char(dot + 3);
        let c3 = path.get_char(dot + 4);
        assert(c0 == e[0] && c1 == e[1] && c2 == e[2] && c3 == e[3]);
        (c0 == 'j' || c0 == 'J') && (c1 == 'p' || c1 == 'P') && (c2 == 'e' || c2 == 'E') && (c3
            == 'g' || c3 == 'G')
    } else {
        false
    }
}

/// Whether a file or directory name is hidden: it starts with a dot.
pub fn is_hidden(name: &str) -> (r: bool)
    ensures
        r == (name@.len() > 0 && name@[0] == '.'),
{
    if name.unicode_len() == 0 {
        false
    } else {
        name.get_char(0) == '.'
    }
}

/// A path with every backslash replaced by a slash.
pub open spec fn forward_slashed(p: Seq<char>) -> Seq<char> {
    Seq::new(p.len(), |i: int| if p[i] == '\\' { '/' } else { p[i] })
}

/// Rewrites a native file path into the URL under which the embedded
/// webview serves local files: separators become slashes and the
/// webview's origin is prefixed.  A host whose webview loads plain
/// file paths needs no rewriting and can use the path as it stands.
pub fn normalize_path(p: &str) -> (r: String)
    ensures
        r@ == "http://dioxus.localhost/"@ + forward_slashed(p@),
{
    let mut out = String::from_str("http://dioxus.localhost/");
    let n = p.unicode_len();
    let mut i: usize = 0;
    while i < n
        invariant
            n == p@.len(),
            i <= n,
            out@ == "http://dioxus.localhost/"@ + forward_slashed(p@).take(i as int),
        decreases n - i,
    {
        let c = p.get_char(i);
        if c == '\\' {
            out.append("/");
            proof {
                reveal_strlit("/");
                assert("/"@ =~= seq!['/']);
            }
        } else {
            let piece = p.substring_char(i, i + 1);
            out.append(piece);
            assert(piece@ =~= seq![p@[i as int]]);
        }
        i = i + 1;
        assert(forward_slashed(p@).take(i as int) =~= forward_slashed(p@).take(i as int - 1).push(
            if p@[i - 1] == '\\' {
                '/'
            } else {
                p@[i - 1]
            },
        ));
    }
    proof {
        assert(forward_slashed(p@).take(n as int) =~= forward_slashed(p@));
    }
    out
}

} // verus!
