//! Paths as the parts that std's `Path::components` yields, on Unix, and
//! the order and prefix test that std defines over those parts.
//!
//! A part is held as its text: `/` for the root, `.` for a leading current
//! directory, `..` for a parent directory, and the name otherwise.
use vstd::prelude::*;
use crate::order::{Rel, compare_chars, chars_lt, char_order, lex_lt, strict_total, lemma_char_order_strict_total, lemma_lex_strict_total, lemma_lex_irreflexive, lemma_lex_transitive, lemma_lex_total};
use crate::text::chars_of;

verus! {

/// The pieces of `s` between separators (`/`), empty ones included.
pub open spec fn segments(s: Seq<char>) -> Seq<Seq<char>>
    decreases s.len(),
{
    if s.len() == 0 {
        seq![Seq::empty()]
    } else {
        let prev = segments(s.drop_last());
        if s.last() == '/' {
            prev.push(Seq::empty())
        } else {
            prev.update(prev.len() - 1, prev.last().push(s.last()))
        }
    }
}

/// A piece that stands as a part of its own: not empty, and not `.`.
pub open spec fn is_name_segment(seg: Seq<char>) -> bool {
    seg.len() > 0 && seg != seq!['.']
}

/// `is_name_segment` as a function value.
pub open spec fn name_segment() -> spec_fn(Seq<char>) -> bool {
    |seg: Seq<char>| is_name_segment(seg)
}

/// The parts with which a path begins before its named pieces: the root
/// for an absolute path, or `.` for a path that starts with the current
/// directory.
pub open spec fn leading_parts(s: Seq<char>) -> Seq<Seq<char>> {
    if s.len() > 0 && s[0] == '/' {
        seq![seq!['/']]
    } else if s == seq!['.'] || (s.len() >= 2 && s[0] == '.' && s[1] == '/') {
        seq![seq!['.']]
    } else {
        Seq::empty()
    }
}

/// The parts of the path `s`, as std's `Path::components` yields them on
/// Unix: repeated separators and inner `.` pieces are dropped.
pub open spec fn path_parts(s: Seq<char>) -> Seq<Seq<char>> {
    leading_parts(s) + segments(s).filter(name_segment())
}

/// The texts of parts held as character vectors.
pub open spec fn parts_view(v: Seq<Vec<char>>) -> Seq<Seq<char>> {
    v.map_values(|p: Vec<char>| p@)
}

/// The rank of a part in std's order of components: root, current
/// directory, parent directory, then names.
pub open spec fn part_rank(p: Seq<char>) -> int {
    if p == seq!['/'] {
        0
    } else if p == seq!['.'] {
        1
    } else if p == seq!['.', '.'] {
        2
    } else {
        3
    }
}

/// The order of two parts: by rank, and names by their text.
pub open spec fn part_lt(a: Seq<char>, b: Seq<char>) -> bool {
    part_rank(a) < part_rank(b) || (part_rank(a) == 3 && part_rank(b) == 3 && chars_lt(a, b))
}

/// `part_lt` as a function value.
pub open spec fn part_order() -> spec_fn(Seq<char>, Seq<char>) -> bool {
    |a: Seq<char>, b: Seq<char>| part_lt(a, b)
}

/// The order of two paths, given by their parts: std's order on paths.
pub open spec fn path_lt(a: Seq<Seq<char>>, b: Seq<Seq<char>>) -> bool {
    lex_lt(a, b, part_order())
}

/// `path_lt` as a function value.
pub open spec fn path_order() -> spec_fn(Seq<Seq<char>>, Seq<Seq<char>>) -> bool {
    |a: Seq<Seq<char>>, b: Seq<Seq<char>>| lex_lt(a, b, part_order())
}

/// The order on parts is a strict total order.
pub proof fn lemma_part_order_strict_total()
    ensures
        strict_total(part_order()),
{
    lemma_char_order_strict_total();
    lemma_lex_strict_total(char_order());
    let l = part_order();
    assert forall|x: Seq<char>| !#[trigger] l(x, x) by {
        lemma_lex_irreflexive(x, char_order());
    }
    assert forall|x: Seq<char>, y: Seq<char>, z: Seq<char>| #[trigger] l(x, y) && #[trigger] l(y, z) implies l(
        x,
        z,
    ) by {
        if part_rank(x) == 3 && part_rank(y) == 3 && part_rank(z) == 3 {
            lemma_lex_transitive(x, y, z, char_order());
        }
    }
    assert forall|x: Seq<char>, y: Seq<char>| x != y implies #[trigger] l(x, y) || #[trigger] l(y, x) by {
        if part_rank(x) == 3 && part_rank(y) == 3 && !chars_lt(x, y) && !chars_lt(y, x) {
            lemma_lex_total(x, y, char_order());
        }
    }
}

/// The order on paths is a strict total order.
pub proof fn lemma_path_order_strict_total()
    ensures
        strict_total(path_order()),
{
    lemma_part_order_strict_total();
    lemma_lex_strict_total(part_order());
}

fn is_name_piece(seg: &Vec<char>) -> (res: bool)
    ensures
        res == is_name_segment(seg@),
{
    if seg.len() == 0 {
        false
    } else if seg.len() == 1 && seg[0] == '.' {
        assert(seg@ =~= seq!['.']);
        false
    } else {
        assert(seg@.len() == 1 ==> seg@ != seq!['.']) by {
            if seg@.len() == 1 && seg@ == seq!['.'] {
                assert(seg@[0] == '.');
            }
        }
        true
    }
}

/// The parts of the path `path`, as std's `Path::components` yields them on
/// Unix.
pub fn parse_path(path: &str) -> (res: Vec<Vec<char>>)
    ensures
        parts_view(res@) == path_parts(path@),
{
    let cs = chars_of(path);
    let ghost s = path@;
    let mut res: Vec<Vec<char>> = Vec::new();
    if cs.len() > 0 && cs[0] == '/' {
        let mut root: Vec<char> = Vec::new();
        root.push('/');
        assert(root@ =~= seq!['/']);
        res.push(root);
        assert(parts_view(res@) =~= seq![seq!['/']]);
    } else if (cs.len() == 1 && cs[0] == '.') || (cs.len() >= 2 && cs[0] == '.' && cs[1] == '/') {
        proof {
            if cs@.len() == 1 {
                assert(s =~= seq!['.']);
            }
        }
        let mut here: Vec<char> = Vec::new();
        here.push('.');
        assert(here@ =~= seq!['.']);
        res.push(here);
        assert(parts_view(res@) =~= seq![seq!['.']]);
    } else {
        proof {
            if s == seq!['.'] {
                assert(s[0] == '.');
            }
        }
        assert(parts_view(res@) =~= Seq::<Seq<char>>::empty());
    }
    let ghost lead = parts_view(res@);
    assert(lead =~= leading_parts(s));
    let mut cur: Vec<char> = Vec::new();
    let mut i: usize = 0;
    assert(s.take(0) =~= Seq::<char>::empty());
    assert(segments(s.take(0)).drop_last() =~= Seq::<Seq<char>>::empty());
    proof {
        reveal(Seq::filter);
    }
    while i < cs.len()
        invariant
            cs@ == s,
            i <= s.len(),
            lead == leading_parts(s),
            segments(s.take(i as int)).len() >= 1,
            parts_view(res@) == lead + segments(s.take(i as int)).drop_last().filter(name_segment()),
            cur@ == segments(s.take(i as int)).last(),
        decreases s.len() - i,
    {
        let c = cs[i];
        let ghost prev = segments(s.take(i as int));
        let ghost old_parts = parts_view(res@);
        assert(s.take(i + 1).drop_last() =~= s.take(i as int));
        assert(s.take(i + 1).last() == c);
        if c == '/' {
            let named = is_name_piece(&cur);
            proof {
                assert(segments(s.take(i + 1)) == prev.push(Seq::empty()));
                assert(segments(s.take(i + 1)).drop_last() =~= prev);
                assert(prev =~= prev.drop_last().push(cur@));
                prev.drop_last().lemma_filter_push(cur@, name_segment());
            }
            if named {
                let piece = cur;
                res.push(piece);
                cur = Vec::new();
                proof {
                    assert(parts_view(res@) =~= old_parts.push(piece@));
                }
            } else {
                cur = Vec::new();
            }
        } else {
            cur.push(c);
            proof {
                let next = prev.update(prev.len() - 1, prev.last().push(c));
                assert(segments(s.take(i + 1)) == next);
                assert(next.drop_last() =~= prev.drop_last());
            }
        }
        i = i + 1;
    }
    assert(s.take(i as int) =~= s);
    let ghost segs = segments(s);
    let ghost before = parts_view(res@);
    proof {
        assert(segs =~= segs.drop_last().push(cur@));
        segs.drop_last().lemma_filter_push(cur@, name_segment());
    }
    if is_name_piece(&cur) {
        let piece = cur;
        res.push(piece);
        assert(parts_view(res@) =~= before.push(piece@));
        assert(parts_view(res@) =~= lead + segs.filter(name_segment()));
    } else {
        assert(parts_view(res@) =~= lead + segs.filter(name_segment()));
    }
    res
}

fn part_rank_of(p: &Vec<char>) -> (res: u8)
    ensures
        res as int == part_rank(p@),
{
    if p.len() == 1 && p[0] == '/' {
        assert(p@ =~= seq!['/']);
        0
    } else if p.len() == 1 && p[0] == '.' {
        assert(p@ =~= seq!['.']);
        proof {
            if p@ == seq!['/'] {
                assert(p@[0] == '/');
            }
        }
        1
    } else if p.len() == 2 && p[0] == '.' && p[1] == '.' {
        assert(p@ =~= seq!['.', '.']);
        2
    } else {
        proof {
            if p@ == seq!['/'] {
                assert(p@[0] == '/');
            }
            if p@ == seq!['.'] {
                assert(p@[0] == '.');
            }
            if p@ == seq!['.', '.'] {
                assert(p@[0] == '.' && p@[1] == '.');
            }
        }
        3
    }
}

/// Compares two parts in std's order of components.
pub fn compare_parts(a: &Vec<char>, b: &Vec<char>) -> (res: Rel)
    ensures
        res == Rel::Less <==> part_lt(a@, b@),
        res == Rel::Equal <==> a@ == b@,
        res == Rel::Greater <==> part_lt(b@, a@),
{
    let ra = part_rank_of(a);
    let rb = part_rank_of(b);
    if ra < rb {
        Rel::Less
    } else if ra > rb {
        Rel::Greater
    } else if ra < 3 {
        proof {
            if ra == 0 {
                assert(a@ == seq!['/'] && b@ == seq!['/']);
            } else if ra == 1 {
                assert(a@ == seq!['.'] && b@ == seq!['.']);
            } else {
                assert(a@ == seq!['.', '.'] && b@ == seq!['.', '.']);
            }
            lemma_lex_irreflexive(a@, char_order());
        }
        Rel::Equal
    } else {
        compare_chars(a.as_slice(), b.as_slice())
    }
}

/// Compares two paths, given by their parts, in std's order on paths.
pub fn compare_paths(a: &Vec<Vec<char>>, b: &Vec<Vec<char>>) -> (res: Rel)
    ensures
        res == Rel::Less <==> path_lt(parts_view(a@), parts_view(b@)),
        res == Rel::Equal <==> parts_view(a@) == parts_view(b@),
        res == Rel::Greater <==> path_lt(parts_view(b@), parts_view(a@)),
{
    let ghost av = parts_view(a@);
    let ghost bv = parts_view(b@);
    proof {
        lemma_part_order_strict_total();
        lemma_lex_irreflexive(av, part_order());
        lemma_lex_irreflexive(bv, part_order());
    }
    assert(av.skip(0) =~= av);
    assert(bv.skip(0) =~= bv);
    let mut i: usize = 0;
    while i < a.len() && i < b.len()
        invariant
            av == parts_view(a@),
            bv == parts_view(b@),
            strict_total(part_order()),
            i <= a@.len(),
            i <= b@.len(),
            av.take(i as int) == bv.take(i as int),
            path_lt(av, bv) == path_lt(av.skip(i as int), bv.skip(i as int)),
            path_lt(bv, av) == path_lt(bv.skip(i as int), av.skip(i as int)),
        decreases a@.len() - i,
    {
        assert(av.skip(i as int).drop_first() =~= av.skip(i + 1));
        assert(bv.skip(i as int).drop_first() =~= bv.skip(i + 1));
        assert(av[i as int] == a@[i as int]@);
        assert(bv[i as int] == b@[i as int]@);
        let r = compare_parts(&a[i], &b[i]);
        match r {
            Rel::Less => {
                proof {
                    assert(av[i as int] != bv[i as int]) by {
                        lemma_lex_irreflexive(av[i as int], char_order());
                    }
                    assert(av != bv) by {
                        assert(av[i as int] != bv[i as int]);
                    }
                }
                return Rel::Less;
            },
            Rel::Greater => {
                proof {
                    assert(av[i as int] != bv[i as int]) by {
                        lemma_lex_irreflexive(av[i as int], char_order());
                    }
                    assert(av != bv) by {
                        assert(av[i as int] != bv[i as int]);
                    }
                }
                return Rel::Greater;
            },
            Rel::Equal => {},
        }
        assert(av.take(i + 1) =~= av.take(i as int).push(av[i as int]));
        assert(bv.take(i + 1) =~= bv.take(i as int).push(bv[i as int]));
        i = i + 1;
    }
    if a.len() < b.len() {
        proof {
            assert(av.skip(i as int).len() == 0);
            assert(av != bv) by {
                assert(av.len() != bv.len());
            }
        }
        Rel::Less
    } else if a.len() > b.len() {
        proof {
            assert(bv.skip(i as int).len() == 0);
            assert(av.len() != bv.len());
        }
        Rel::Greater
    } else {
        proof {
            assert(av =~= av.take(i as int));
            assert(bv =~= bv.take(i as int));
        }
        Rel::Equal
    }
}

/// Whether the path with parts `path` starts with the path with parts
/// `base`, whole parts only, as std's `Path::starts_with` decides.
pub fn parts_start_with(path: &Vec<Vec<char>>, base: &Vec<Vec<char>>) -> (res: bool)
    ensures
        res == parts_view(base@).is_prefix_of(parts_view(path@)),
{
    let ghost pv = parts_view(path@);
    let ghost bv = parts_view(base@);
    if base.len() > path.len() {
        return false;
    }
    let mut i: usize = 0;
    while i < base.len()
        invariant
            pv == parts_view(path@),
            bv == parts_view(base@),
            base@.len() <= path@.len(),
            i <= base@.len(),
            forall|k: int| 0 <= k < i ==> bv[k] == pv[k],
        decreases base@.len() - i,
    {
        let r = compare_parts(&path[i], &base[i]);
        assert(pv[i as int] == path@[i as int]@);
        assert(bv[i as int] == base@[i as int]@);
        if r != Rel::Equal {
            return false;
        }
        i = i + 1;
    }
    true
}

/// The index of the last `c` in `s`, or -1 where `s` holds none.
pub open spec fn last_index_of(s: Seq<char>, c: char) -> int
    decreases s.len(),
{
    if s.len() == 0 {
        -1
    } else if s.last() == c {
        s.len() - 1
    } else {
        last_index_of(s.drop_last(), c)
    }
}

/// The extension of a file name, as std's `Path::extension` finds it: the
/// text after the last `.`, where that `.` is not the name's first
/// character; none for `..`.
pub open spec fn extension_of(name: Seq<char>) -> Option<Seq<char>> {
    let k = last_index_of(name, '.');
    if name == seq!['.', '.'] || k <= 0 {
        None
    } else {
        Some(name.skip(k + 1))
    }
}

/// The last index of a character lies within the text and holds it.
pub proof fn lemma_last_index_bounds(s: Seq<char>, c: char)
    ensures
        -1 <= last_index_of(s, c) < s.len(),
        last_index_of(s, c) >= 0 ==> s[last_index_of(s, c)] == c,
    decreases s.len(),
{
    if s.len() > 0 && s.last() != c {
        lemma_last_index_bounds(s.drop_last(), c);
    }
}

/// The extension of the file name `name`, as std's `Path::extension` finds
/// it.
pub fn file_extension(name: &str) -> (res: Option<String>)
    ensures
        match res {
            Some(ext) => extension_of(name@) == Some(ext@),
            None => extension_of(name@) is None,
        },
{
    let cs = chars_of(name);
    let ghost s = name@;
    let mut j: usize = cs.len();
    assert(s.take(s.len() as int) =~= s);
    while j > 0 && cs[j - 1] != '.'
        invariant
            cs@ == s,
            j <= s.len(),
            last_index_of(s, '.') == last_index_of(s.take(j as int), '.'),
        decreases j,
    {
        assert(s.take(j as int).drop_last() =~= s.take(j - 1));
        j = j - 1;
    }
    proof {
        if j > 0 {
            assert(s.take(j as int).last() == '.');
        } else {
            assert(s.take(0).len() == 0);
        }
    }
    assert(s.take(s.len() as int) =~= s);
    if j <= 1 {
        return None;
    }
    if cs.len() == 2 && cs[0] == '.' && cs[1] == '.' {
        assert(s =~= seq!['.', '.']);
        return None;
    }
    proof {
        if s == seq!['.', '.'] {
            assert(s[0] == '.' && s[1] == '.');
        }
    }
    let mut ext: Vec<char> = Vec::new();
    let mut k: usize = j;
    while k < cs.len()
        invariant
            cs@ == s,
            1 <= j <= k <= s.len(),
            ext@ == s.subrange(j as int, k as int),
        decreases s.len() - k,
    {
        ext.push(cs[k]);
        k = k + 1;
        assert(ext@ =~= s.subrange(j as int, k as int));
    }
    assert(ext@ =~= s.skip(j as int));
    Some(crate::text::string_of(ext.as_slice()))
}

proof fn lemma_no_later_char(s: Seq<char>, c: char, i: int)
    requires
        last_index_of(s, c) < i < s.len(),
    ensures
        s[i] != c,
    decreases s.len(),
{
    lemma_last_index_bounds(s, c);
    if s.last() != c && i < s.len() - 1 {
        lemma_no_later_char(s.drop_last(), c, i);
        assert(s.drop_last()[i] == s[i]);
    }
}

/// An extension is what follows the name's last `.`, after a non-empty
/// stem: the name is the stem, `.`, and the extension, which holds no `.`.
pub proof fn lemma_extension_shape(name: Seq<char>)
    requires
        extension_of(name) is Some,
    ensures
        exists|stem: Seq<char>|
            stem.len() > 0 && name == stem + seq!['.'] + #[trigger] extension_of(name)->0,
        forall|i: int| 0 <= i < extension_of(name)->0.len() ==> #[trigger] extension_of(name)->0[i] != '.',
{
    let k = last_index_of(name, '.');
    lemma_last_index_bounds(name, '.');
    let ext = extension_of(name)->0;
    let stem = name.take(k);
    assert(name =~= stem + seq!['.'] + ext);
    assert forall|i: int| 0 <= i < ext.len() implies #[trigger] ext[i] != '.' by {
        lemma_no_later_char(name, '.', k + 1 + i);
    }
}

proof fn lemma_last_index_after(s: Seq<char>, t: Seq<char>, c: char)
    requires
        forall|i: int| 0 <= i < t.len() ==> #[trigger] t[i] != c,
    ensures
        last_index_of(s + t, c) == last_index_of(s, c),
    decreases t.len(),
{
    if t.len() > 0 {
        assert((s + t).drop_last() =~= s + t.drop_last());
        assert((s + t).last() == t[t.len() - 1]);
        lemma_last_index_after(s, t.drop_last(), c);
    } else {
        assert(s + t =~= s);
    }
}

/// The extension of `stem.ext` is `ext`, where `ext` holds no `.` and the
/// stem is not empty (and the name is not `..`).
pub proof fn lemma_extension_of_parts(stem: Seq<char>, ext: Seq<char>)
    requires
        stem.len() > 0,
        forall|i: int| 0 <= i < ext.len() ==> #[trigger] ext[i] != '.',
        stem + seq!['.'] + ext != seq!['.', '.'],
    ensures
        extension_of(stem + seq!['.'] + ext) == Some(ext),
{
    let head = stem + seq!['.'];
    assert(head.drop_last() =~= stem);
    assert(last_index_of(head, '.') == stem.len());
    lemma_last_index_after(head, ext, '.');
    assert((stem + seq!['.'] + ext).skip(stem.len() + 1int) =~= ext);
}

} // verus!
