//! File names of a directory listing: stems, extensions, and the order in
//! which path components sort.
//!
//! A file name splits at its last `.` into a stem and an extension, unless the
//! dot is its first character (`.hidden` has no extension) or the name is `..`.
//! A name without a dot is all stem.
use vstd::prelude::*;

use crate::text::{chars_of, push_char};

verus! {

/// The last index below `i` at which `n` holds a `.`.
pub open spec fn last_dot_below(n: Seq<char>, i: int) -> Option<int>
    decreases i,
{
    if i <= 0 {
        None
    } else if n[i - 1] == '.' {
        Some(i - 1)
    } else {
        last_dot_below(n, i - 1)
    }
}

/// The last index at which `n` holds a `.`.
pub open spec fn last_dot(n: Seq<char>) -> Option<int> {
    last_dot_below(n, n.len() as int)
}

/// The name `..`.
pub open spec fn is_parent_name(n: Seq<char>) -> bool {
    n == seq!['.', '.']
}

/// The name `.`.
pub open spec fn is_current_name(n: Seq<char>) -> bool {
    n == seq!['.']
}

/// Where the name splits into stem and extension: at its last dot, when that
/// dot is not its first character and the name is not `..`.
pub open spec fn split_dot(n: Seq<char>) -> Option<int> {
    if is_parent_name(n) {
        None
    } else {
        match last_dot(n) {
            Some(k) => if k > 0 {
                Some(k)
            } else {
                None
            },
            None => None,
        }
    }
}

/// The stem of a file name: the name without its extension.
pub open spec fn file_stem(n: Seq<char>) -> Seq<char> {
    match split_dot(n) {
        Some(k) => n.take(k),
        None => n,
    }
}

/// The extension of a file name, without its dot.
pub open spec fn extension(n: Seq<char>) -> Option<Seq<char>> {
    match split_dot(n) {
        Some(k) => Some(n.skip(k + 1)),
        None => None,
    }
}

/// The code of a character, with ASCII upper case mapped to lower case.
pub open spec fn ascii_lower_code(c: char) -> u32 {
    if 'A' <= c && c <= 'Z' {
        (c as u32 + 32) as u32
    } else {
        c as u32
    }
}

/// `s` and `t` are equal when ASCII letters are compared without case.
pub open spec fn eq_ignore_ascii_case(s: Seq<char>, t: Seq<char>) -> bool {
    &&& s.len() == t.len()
    &&& forall|i: int| 0 <= i < s.len() ==> ascii_lower_code(#[trigger] s[i]) == ascii_lower_code(t[i])
}

/// The extension `jpg`.
pub open spec fn jpg() -> Seq<char> {
    seq!['j', 'p', 'g']
}

/// The extension `jpeg`.
pub open spec fn jpeg() -> Seq<char> {
    seq!['j', 'p', 'e', 'g']
}

/// The extension `png`.
pub open spec fn png() -> Seq<char> {
    seq!['p', 'n', 'g']
}

/// The extension `txt`.
pub open spec fn txt() -> Seq<char> {
    seq!['t', 'x', 't']
}

/// The image extensions the training pipeline accepts, in the order in which a
/// label's image is looked for.
pub open spec fn image_extensions() -> Seq<Seq<char>> {
    seq![jpg(), jpeg(), png()]
}

/// An image file name: its extension is, ignoring ASCII case, one of the image extensions.
pub open spec fn is_image_name(n: Seq<char>) -> bool {
    match extension(n) {
        Some(e) => eq_ignore_ascii_case(e, jpg()) || eq_ignore_ascii_case(e, jpeg())
            || eq_ignore_ascii_case(e, png()),
        None => false,
    }
}

/// A label file name: its extension is exactly `txt`.
pub open spec fn is_label_name(n: Seq<char>) -> bool {
    extension(n) == Some(txt())
}

/// Code-point order on character sequences.
pub open spec fn chars_less(a: Seq<char>, b: Seq<char>) -> bool
    decreases a.len(),
{
    if a.len() == 0 {
        b.len() > 0
    } else if b.len() == 0 {
        false
    } else if a[0] != b[0] {
        (a[0] as u32) < (b[0] as u32)
    } else {
        chars_less(a.drop_first(), b.drop_first())
    }
}

/// How a single path component sorts among the others: the empty path first,
/// then `.`, then `..`, then every other name.
pub open spec fn component_rank(a: Seq<char>) -> int {
    if a.len() == 0 {
        0
    } else if is_current_name(a) {
        1
    } else if is_parent_name(a) {
        2
    } else {
        3
    }
}

/// The order of paths of one component: by rank, then by code points.
pub open spec fn name_less(a: Seq<char>, b: Seq<char>) -> bool {
    if component_rank(a) != component_rank(b) {
        component_rank(a) < component_rank(b)
    } else {
        component_rank(a) == 3 && chars_less(a, b)
    }
}

/// Code-point order is irreflexive and asymmetric.
pub proof fn lemma_chars_less_strict(a: Seq<char>, b: Seq<char>)
    ensures
        !chars_less(a, a),
        !(chars_less(a, b) && chars_less(b, a)),
    decreases a.len(),
{
    if a.len() > 0 && b.len() > 0 {
        lemma_chars_less_strict(a.drop_first(), b.drop_first());
        lemma_chars_less_strict(a.drop_first(), a.drop_first());
    } else if a.len() > 0 {
        lemma_chars_less_strict(a.drop_first(), a.drop_first());
    }
}

/// Code-point order is transitive.
pub proof fn lemma_chars_less_transitive(a: Seq<char>, b: Seq<char>, c: Seq<char>)
    requires
        chars_less(a, b),
        chars_less(b, c),
    ensures
        chars_less(a, c),
    decreases a.len(),
{
    if a.len() > 0 && b.len() > 0 && c.len() > 0 && a[0] == b[0] && b[0] == c[0] {
        lemma_chars_less_transitive(a.drop_first(), b.drop_first(), c.drop_first());
    }
}

/// Code-point order is total.
pub proof fn lemma_chars_less_total(a: Seq<char>, b: Seq<char>)
    requires
        a != b,
    ensures
        chars_less(a, b) || chars_less(b, a),
    decreases a.len(),
{
    if a.len() == 0 && b.len() == 0 {
        assert(a =~= b);
    } else if a.len() > 0 && b.len() > 0 && a[0] != b[0] {
        vstd::utf8::char_u32_cast(a[0], a[0] as u32);
        vstd::utf8::char_u32_cast(b[0], b[0] as u32);
    } else if a.len() > 0 && b.len() > 0 && a[0] == b[0] {
        if a.drop_first() == b.drop_first() {
            assert(a =~= seq![a[0]] + a.drop_first());
            assert(b =~= seq![b[0]] + b.drop_first());
        }
        lemma_chars_less_total(a.drop_first(), b.drop_first());
    }
}

/// Code-point order is irreflexive, transitive and total.
pub proof fn lemma_chars_less_order(a: Seq<char>, b: Seq<char>, c: Seq<char>)
    ensures
        !chars_less(a, a),
        chars_less(a, b) && chars_less(b, c) ==> chars_less(a, c),
        a != b ==> chars_less(a, b) || chars_less(b, a),
        !(chars_less(a, b) && chars_less(b, a)),
{
    lemma_chars_less_strict(a, b);
    if chars_less(a, b) && chars_less(b, c) {
        lemma_chars_less_transitive(a, b, c);
    }
    if a != b {
        lemma_chars_less_total(a, b);
    }
}

/// The order of names is irreflexive, transitive and total.
pub proof fn lemma_name_less_order(a: Seq<char>, b: Seq<char>, c: Seq<char>)
    ensures
        !name_less(a, a),
        name_less(a, b) && name_less(b, c) ==> name_less(a, c),
        a != b ==> name_less(a, b) || name_less(b, a),
        !(name_less(a, b) && name_less(b, a)),
{
    lemma_chars_less_order(a, b, c);
    if a != b && component_rank(a) == component_rank(b) && component_rank(a) < 3 {
        if component_rank(a) == 0 {
            assert(a =~= b);
        }
    }
}

/// The last dot of `cs`, searched from the end.
fn find_last_dot(cs: &Vec<char>) -> (res: Option<usize>)
    ensures
        match res {
            Some(k) => last_dot(cs@) == Some(k as int) && k < cs.len(),
            None => last_dot(cs@) is None,
        },
{
    let mut i = cs.len();
    while i > 0
        invariant
            i <= cs@.len(),
            last_dot(cs@) == last_dot_below(cs@, i as int),
        decreases i,
    {
        if cs[i - 1] == '.' {
            return Some(i - 1);
        }
        i = i - 1;
    }
    None
}

/// Whether `cs` is the name `..`.
fn is_parent_chars(cs: &Vec<char>) -> (res: bool)
    ensures
        res == is_parent_name(cs@),
{
    let r = cs.len() == 2 && cs[0] == '.' && cs[1] == '.';
    proof {
        if r {
            assert(cs@ =~= seq!['.', '.']);
        }
    }
    r
}

/// Whether `cs` is the name `.`.
fn is_current_chars(cs: &Vec<char>) -> (res: bool)
    ensures
        res == is_current_name(cs@),
{
    let r = cs.len() == 1 && cs[0] == '.';
    proof {
        if r {
            assert(cs@ =~= seq!['.']);
        }
    }
    r
}

/// Where `cs` splits into stem and extension.
fn split_dot_of(cs: &Vec<char>) -> (res: Option<usize>)
    ensures
        match res {
            Some(k) => split_dot(cs@) == Some(k as int) && 0 < k < cs.len(),
            None => split_dot(cs@) is None,
        },
{
    if is_parent_chars(cs) {
        return None;
    }
    match find_last_dot(cs) {
        Some(k) => if k > 0 {
            Some(k)
        } else {
            None
        },
        None => None,
    }
}

/// The string of the characters `cs[from..to]`.
fn string_of(cs: &Vec<char>, from: usize, to: usize) -> (res: String)
    requires
        from <= to <= cs@.len(),
    ensures
        res@ == cs@.subrange(from as int, to as int),
{
    let mut s = String::new();
    let mut i = from;
    while i < to
        invariant
            from <= i <= to <= cs@.len(),
            s@ == cs@.subrange(from as int, i as int),
        decreases to - i,
    {
        push_char(&mut s, cs[i]);
        i = i + 1;
        assert(s@ =~= cs@.subrange(from as int, i as int));
    }
    s
}

/// The stem of the file name `name`.
pub fn stem_of(name: &str) -> (res: String)
    ensures
        res@ == file_stem(name@),
{
    let cs = chars_of(name);
    match split_dot_of(&cs) {
        Some(k) => string_of(&cs, 0, k),
        None => {
            let s = string_of(&cs, 0, cs.len());
            assert(cs@.subrange(0, cs@.len() as int) =~= cs@);
            s
        },
    }
}

/// Whether `cs[from..]` equals `expected` when ASCII letters are compared without case.
fn tail_eq_ignore_case(cs: &Vec<char>, from: usize, expected: &Vec<char>) -> (res: bool)
    requires
        from <= cs@.len(),
    ensures
        res == eq_ignore_ascii_case(cs@.skip(from as int), expected@),
{
    let ghost tail = cs@.skip(from as int);
    if cs.len() - from != expected.len() {
        return false;
    }
    let mut i: usize = 0;
    while i < expected.len()
        invariant
            tail == cs@.skip(from as int),
            from <= cs@.len(),
            cs@.len() - from == expected@.len(),
            i <= expected@.len(),
            forall|j: int| 0 <= j < i ==> ascii_lower_code(#[trigger] tail[j]) == ascii_lower_code(
                expected@[j],
            ),
        decreases expected@.len() - i,
    {
        assert(from + i < cs.len());
        let c = cs[from + i];
        let e = expected[i];
        let lc: u32 = if 'A' <= c && c <= 'Z' {
            c as u32 + 32
        } else {
            c as u32
        };
        let le: u32 = if 'A' <= e && e <= 'Z' {
            e as u32 + 32
        } else {
            e as u32
        };
        assert(tail[i as int] == c);
        if lc != le {
            return false;
        }
        i = i + 1;
    }
    true
}

/// The characters of `jpg`, `jpeg`, `png` or `txt`.
fn ext_chars(which: usize) -> (res: Vec<char>)
    requires
        which < 4,
    ensures
        which < 3 ==> res@ == image_extensions()[which as int],
        which == 3 ==> res@ == txt(),
{
    let v = if which == 0 {
        vec!['j', 'p', 'g']
    } else if which == 1 {
        vec!['j', 'p', 'e', 'g']
    } else if which == 2 {
        vec!['p', 'n', 'g']
    } else {
        vec!['t', 'x', 't']
    };
    assert(which == 0 ==> v@ =~= jpg());
    assert(which == 1 ==> v@ =~= jpeg());
    assert(which == 2 ==> v@ =~= png());
    assert(which == 3 ==> v@ =~= txt());
    v
}

/// Whether `name` is the name of an image file: its extension is `jpg`, `jpeg`
/// or `png`, ignoring ASCII case.
pub fn is_image(name: &str) -> (res: bool)
    ensures
        res == is_image_name(name@),
{
    let cs = chars_of(name);
    match split_dot_of(&cs) {
        Some(k) => {
            let a = tail_eq_ignore_case(&cs, k + 1, &ext_chars(0));
            let b = tail_eq_ignore_case(&cs, k + 1, &ext_chars(1));
            let c = tail_eq_ignore_case(&cs, k + 1, &ext_chars(2));
            a || b || c
        },
        None => false,
    }
}

/// Whether `name` is the name of a label file: its extension is exactly `txt`.
pub fn is_label_file(name: &str) -> (res: bool)
    ensures
        res == is_label_name(name@),
{
    let cs = chars_of(name);
    match split_dot_of(&cs) {
        Some(k) => {
            if cs.len() - (k + 1) != 3 {
                assert(cs@.skip(k + 1).len() != txt().len());
                return false;
            }
            let r = cs[k + 1] == 't' && cs[k + 2] == 'x' && cs[k + 3] == 't';
            proof {
                if r {
                    assert(cs@.skip(k + 1) =~= txt());
                } else {
                    assert(cs@.skip(k + 1)[0] == cs@[k + 1]);
                    assert(cs@.skip(k + 1)[1] == cs@[k + 2]);
                    assert(cs@.skip(k + 1)[2] == cs@[k + 3]);
                }
            }
            r
        },
        None => false,
    }
}

/// Whether `a` sorts before `b` by code points.
fn chars_before(a: &Vec<char>, b: &Vec<char>) -> (res: bool)
    ensures
        res == chars_less(a@, b@),
{
    let mut i: usize = 0;
    assert(a@.skip(0) =~= a@ && b@.skip(0) =~= b@);
    while i < a.len() && i < b.len() && a[i] == b[i]
        invariant
            i <= a@.len(),
            i <= b@.len(),
            a@.take(i as int) == b@.take(i as int),
            chars_less(a@, b@) == chars_less(a@.skip(i as int), b@.skip(i as int)),
        decreases a@.len() - i,
    {
        proof {
            let sa = a@.skip(i as int);
            let sb = b@.skip(i as int);
            assert(sa.drop_first() =~= a@.skip(i + 1));
            assert(sb.drop_first() =~= b@.skip(i + 1));
            assert(a@.take(i + 1) =~= a@.take(i as int).push(a@[i as int]));
            assert(b@.take(i + 1) =~= b@.take(i as int).push(b@[i as int]));
        }
        i = i + 1;
    }
    let ghost sa = a@.skip(i as int);
    let ghost sb = b@.skip(i as int);
    if i == a.len() {
        i < b.len()
    } else if i == b.len() {
        false
    } else {
        assert(sa[0] == a@[i as int] && sb[0] == b@[i as int]);
        (a[i] as u32) < (b[i] as u32)
    }
}

/// The rank of a single-component path: `""`, `.`, `..`, then all other names.
fn rank_of(cs: &Vec<char>) -> (res: u8)
    ensures
        res as int == component_rank(cs@),
{
    if cs.len() == 0 {
        0
    } else if is_current_chars(cs) {
        1
    } else if is_parent_chars(cs) {
        2
    } else {
        3
    }
}

/// Whether the path of the single component `a` sorts before that of `b`.
pub fn sorts_before(a: &str, b: &str) -> (res: bool)
    ensures
        res == name_less(a@, b@),
{
    let ca = chars_of(a);
    let cb = chars_of(b);
    let ra = rank_of(&ca);
    let rb = rank_of(&cb);
    if ra != rb {
        ra < rb
    } else {
        ra == 3 && chars_before(&ca, &cb)
    }
}

/// `c` is `x` itself or, when `x` is a lower-case ASCII letter, its upper-case form.
pub open spec fn same_letter_any_case(c: char, x: char) -> bool {
    c == x || ('a' <= x && x <= 'z' && (c as u32) + 32 == (x as u32))
}

/// `e` spells `x` letter by letter, each letter in either case.
pub open spec fn spells_any_case(e: Seq<char>, x: Seq<char>) -> bool {
    &&& e.len() == x.len()
    &&& forall|i: int| 0 <= i < e.len() ==> same_letter_any_case(#[trigger] e[i], x[i])
}

/// For a lower-case ASCII letter `x`, `c` is `x` in either case exactly when
/// the two agree once ASCII upper case is mapped to lower case.
proof fn lemma_same_letter_lower(c: char, x: char)
    requires
        'a' <= x && x <= 'z',
    ensures
        same_letter_any_case(c, x) <==> ascii_lower_code(c) == ascii_lower_code(x),
{
}

/// The image extensions are spelt in lower-case ASCII letters.
proof fn lemma_image_extensions_lower(k: int)
    requires
        0 <= k < image_extensions().len(),
    ensures
        forall|i: int|
            0 <= i < image_extensions()[k].len() ==> 'a' <= #[trigger] image_extensions()[k][i] && image_extensions()[k][i]
                <= 'z',
{
    assert(image_extensions()[0] == jpg());
    assert(image_extensions()[1] == jpeg());
    assert(image_extensions()[2] == png());
}

/// A name is an image name exactly when it has an extension that spells one of
/// the image extensions (`jpg`, `jpeg`, `png`) with each letter in either case:
/// `x.PNG`, `x.Png` and `x.jPeG` are image names, `x.gif` and `x` are not.
pub proof fn lemma_image_name_any_case(n: Seq<char>)
    ensures
        is_image_name(n) <==> (extension(n) is Some && exists|k: int|
            0 <= k < image_extensions().len() && spells_any_case(
                extension(n)->0,
                #[trigger] image_extensions()[k],
            )),
{
    assert forall|e: Seq<char>, k: int|
        0 <= k < image_extensions().len() implies (#[trigger] spells_any_case(e, image_extensions()[k])
        <==> eq_ignore_ascii_case(e, image_extensions()[k])) by {
        let x = image_extensions()[k];
        lemma_image_extensions_lower(k);
        assert forall|i: int| 0 <= i < e.len() && i < x.len() implies (same_letter_any_case(
            #[trigger] e[i],
            x[i],
        ) <==> ascii_lower_code(e[i]) == ascii_lower_code(x[i])) by {
            lemma_same_letter_lower(e[i], x[i]);
        }
    }
    if let Some(e) = extension(n) {
        assert(image_extensions()[0] == jpg());
        assert(image_extensions()[1] == jpeg());
        assert(image_extensions()[2] == png());
        if is_image_name(n) {
            if eq_ignore_ascii_case(e, jpg()) {
                assert(spells_any_case(e, image_extensions()[0]));
            } else if eq_ignore_ascii_case(e, jpeg()) {
                assert(spells_any_case(e, image_extensions()[1]));
            } else {
                assert(spells_any_case(e, image_extensions()[2]));
            }
        }
    }
}

} // verus!
