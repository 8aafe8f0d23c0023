//! A stable sort of items by a key: digests, sizes, times or paths,
//! ascending or descending, with equal keys kept in their given order.
use vstd::prelude::*;
use crate::order::{
    Rel, bytes_lt, byte_order, compare_bytes, lex_lt, strict_total, lemma_byte_order_strict_total,
    lemma_lex_strict_total,
};
use crate::path::{path_lt, parts_view, part_order, compare_paths, lemma_part_order_strict_total};

verus! {

/// The key by which an item is sorted.
pub enum SortKey {
    /// A digest and a path: by the digest, in the order of byte strings,
    /// then by the path.
    Digest(Vec<u8>, Vec<Vec<char>>),
    /// A size in bytes.
    Size(u64),
    /// A time, in nanoseconds from the Unix epoch.
    Time(i128),
    /// A path, given by its parts, in std's order on paths.
    Path(Vec<Vec<char>>),
}

/// The value of a key.
pub enum KeyValue {
    Digest(Seq<u8>, Seq<Seq<char>>),
    Size(u64),
    Time(i128),
    Path(Seq<Seq<char>>),
}

impl View for SortKey {
    type V = KeyValue;

    open spec fn view(&self) -> KeyValue {
        match self {
            SortKey::Digest(h, p) => KeyValue::Digest(h@, parts_view(p@)),
            SortKey::Size(n) => KeyValue::Size(*n),
            SortKey::Time(t) => KeyValue::Time(*t),
            SortKey::Path(p) => KeyValue::Path(parts_view(p@)),
        }
    }
}

/// The rank of a key's kind.
pub open spec fn key_rank(k: KeyValue) -> int {
    match k {
        KeyValue::Digest(_, _) => 0,
        KeyValue::Size(_) => 1,
        KeyValue::Time(_) => 2,
        KeyValue::Path(_) => 3,
    }
}

/// The order of keys: keys of one kind by their own order (keys of
/// different kinds by kind, which the library never mixes).
pub open spec fn key_lt(a: KeyValue, b: KeyValue) -> bool {
    match (a, b) {
        (KeyValue::Digest(x, p), KeyValue::Digest(y, q)) => bytes_lt(x, y) || (x == y && path_lt(p, q)),
        (KeyValue::Size(x), KeyValue::Size(y)) => x < y,
        (KeyValue::Time(x), KeyValue::Time(y)) => x < y,
        (KeyValue::Path(x), KeyValue::Path(y)) => path_lt(x, y),
        _ => key_rank(a) < key_rank(b),
    }
}

/// The values of a list of keys.
pub open spec fn keys_view(keys: Seq<SortKey>) -> Seq<KeyValue> {
    keys.map_values(|k: SortKey| k@)
}

/// Whether item `i` comes before item `j`: by key, ascending or descending,
/// and by position where the keys are equal.
pub open spec fn comes_before(keys: Seq<KeyValue>, desc: bool, i: int, j: int) -> bool {
    if keys[i] == keys[j] {
        i < j
    } else if desc {
        key_lt(keys[j], keys[i])
    } else {
        key_lt(keys[i], keys[j])
    }
}

/// `ord` lists each position of `keys` once, in the order `comes_before`.
pub open spec fn is_sorted_order(keys: Seq<KeyValue>, desc: bool, ord: Seq<usize>) -> bool {
    &&& ord.len() == keys.len()
    &&& forall|a: int| 0 <= a < ord.len() ==> #[trigger] ord[a] < keys.len()
    &&& forall|k: usize| k < keys.len() ==> #[trigger] ord.contains(k)
    &&& forall|a: int, b: int|
        0 <= a < b < ord.len() ==> comes_before(keys, desc, #[trigger] ord[a] as int, #[trigger] ord[b] as int)
}

/// The order on keys is a strict total order.
pub proof fn lemma_key_order_strict_total()
    ensures
        strict_total(|a: KeyValue, b: KeyValue| key_lt(a, b)),
{
    lemma_byte_order_strict_total();
    lemma_lex_strict_total(byte_order());
    lemma_part_order_strict_total();
    lemma_lex_strict_total(part_order());
    let l = |a: KeyValue, b: KeyValue| key_lt(a, b);
    let bl = |a: Seq<u8>, b: Seq<u8>| lex_lt(a, b, byte_order());
    let pl = |a: Seq<Seq<char>>, b: Seq<Seq<char>>| lex_lt(a, b, part_order());
    assert forall|x: KeyValue| !#[trigger] l(x, x) by {
        match x {
            KeyValue::Digest(h, p) => {
                assert(!bl(h, h));
                assert(!pl(p, p));
            },
            KeyValue::Path(p) => assert(!pl(p, p)),
            _ => {},
        }
    }
    assert forall|x: KeyValue, y: KeyValue, z: KeyValue| #[trigger] l(x, y) && #[trigger] l(y, z) implies l(
        x,
        z,
    ) by {
        match (x, y, z) {
            (KeyValue::Digest(a, p), KeyValue::Digest(b, q), KeyValue::Digest(c, r)) => {
                if bl(a, b) && bl(b, c) {
                    assert(bl(a, c));
                } else if a == b && b == c {
                    assert(pl(p, q) && pl(q, r));
                }
                if a == c && bl(a, b) && bl(b, c) {
                    assert(bl(a, a));
                }
            },
            (KeyValue::Path(a), KeyValue::Path(b), KeyValue::Path(c)) => {
                assert(pl(a, b) && pl(b, c));
            },
            _ => {},
        }
    }
    assert forall|x: KeyValue, y: KeyValue| x != y implies #[trigger] l(x, y) || #[trigger] l(y, x) by {
        match (x, y) {
            (KeyValue::Digest(a, p), KeyValue::Digest(b, q)) => {
                if a != b {
                    assert(bl(a, b) || bl(b, a));
                } else {
                    assert(p != q);
                    assert(pl(p, q) || pl(q, p));
                }
            },
            (KeyValue::Path(a), KeyValue::Path(b)) => {
                assert(a != b);
                assert(pl(a, b) || pl(b, a));
            },
            _ => {},
        }
    }
}

/// `comes_before` is a strict total order on the positions of `keys`.
pub open spec fn orders_totally(keys: Seq<KeyValue>, desc: bool) -> bool {
    &&& forall|x: int| !#[trigger] comes_before(keys, desc, x, x)
    &&& forall|x: int, y: int, z: int|
        #[trigger] comes_before(keys, desc, x, y) && #[trigger] comes_before(keys, desc, y, z)
            ==> comes_before(keys, desc, x, z)
    &&& forall|x: int, y: int|
        x != y ==> #[trigger] comes_before(keys, desc, x, y) || #[trigger] comes_before(keys, desc, y, x)
}

/// `comes_before` orders the distinct positions of any key list totally.
pub proof fn lemma_comes_before_total_order(keys: Seq<KeyValue>, desc: bool)
    ensures
        orders_totally(keys, desc),
{
    lemma_key_order_strict_total();
    let l = |a: KeyValue, b: KeyValue| key_lt(a, b);
    assert forall|i: int, j: int, k: int|
        #[trigger] comes_before(keys, desc, i, j) && #[trigger] comes_before(keys, desc, j, k) implies comes_before(
        keys,
        desc,
        i,
        k,
    ) by {
        assert(!l(keys[i], keys[i]) && !l(keys[j], keys[j]));
        if desc {
            if keys[k] != keys[j] && keys[j] != keys[i] {
                assert(l(keys[k], keys[j]) && l(keys[j], keys[i]));
            }
        } else {
            if keys[k] != keys[j] && keys[j] != keys[i] {
                assert(l(keys[i], keys[j]) && l(keys[j], keys[k]));
            }
        }
    }
    assert forall|i: int, j: int| i != j implies #[trigger] comes_before(keys, desc, i, j)
        || #[trigger] comes_before(keys, desc, j, i) by {
        if keys[i] != keys[j] {
            assert(l(keys[i], keys[j]) || l(keys[j], keys[i]));
        }
    }
}

/// Compares two keys in the order `key_lt`.
pub fn compare_keys(a: &SortKey, b: &SortKey) -> (res: Rel)
    ensures
        res == Rel::Less <==> key_lt(a@, b@),
        res == Rel::Equal <==> a@ == b@,
        res == Rel::Greater <==> key_lt(b@, a@),
{
    proof {
        lemma_key_order_strict_total();
    }
    match (a, b) {
        (SortKey::Digest(x, p), SortKey::Digest(y, q)) => {
            match compare_bytes(x.as_slice(), y.as_slice()) {
                Rel::Equal => compare_paths(p, q),
                r => r,
            }
        },
        (SortKey::Size(x), SortKey::Size(y)) => {
            if *x < *y {
                Rel::Less
            } else if *x > *y {
                Rel::Greater
            } else {
                Rel::Equal
            }
        },
        (SortKey::Time(x), SortKey::Time(y)) => {
            if *x < *y {
                Rel::Less
            } else if *x > *y {
                Rel::Greater
            } else {
                Rel::Equal
            }
        },
        (SortKey::Path(x), SortKey::Path(y)) => compare_paths(x, y),
        _ => {
            let ra = rank_of(a);
            let rb = rank_of(b);
            if ra < rb {
                Rel::Less
            } else {
                Rel::Greater
            }
        },
    }
}

fn rank_of(k: &SortKey) -> (res: u8)
    ensures
        res as int == key_rank(k@),
{
    match k {
        SortKey::Digest(_, _) => 0,
        SortKey::Size(_) => 1,
        SortKey::Time(_) => 2,
        SortKey::Path(_) => 3,
    }
}

fn item_before(keys: &Vec<SortKey>, desc: bool, i: usize, j: usize) -> (res: bool)
    requires
        i < keys@.len(),
        j < keys@.len(),
    ensures
        res == comes_before(keys_view(keys@), desc, i as int, j as int),
{
    let ghost kv = keys_view(keys@);
    assert(kv[i as int] == keys@[i as int]@);
    assert(kv[j as int] == keys@[j as int]@);
    match compare_keys(&keys[i], &keys[j]) {
        Rel::Equal => i < j,
        Rel::Less => !desc,
        Rel::Greater => desc,
    }
}

/// `s` lists positions in strictly increasing `comes_before` order.
pub open spec fn sorted_by(keys: Seq<KeyValue>, desc: bool, s: Seq<usize>) -> bool {
    forall|a: int, b: int| 0 <= a < b < s.len() ==> comes_before(keys, desc, #[trigger] s[a] as int, #[trigger] s[b] as int)
}

/// Merges two sorted lists of positions that share none.
fn merge(keys: &Vec<SortKey>, desc: bool, a: Vec<usize>, b: Vec<usize>) -> (res: Vec<usize>)
    requires
        orders_totally(keys_view(keys@), desc),
        forall|x: int| 0 <= x < a@.len() ==> #[trigger] a@[x] < keys@.len(),
        forall|x: int| 0 <= x < b@.len() ==> #[trigger] b@[x] < keys@.len(),
        sorted_by(keys_view(keys@), desc, a@),
        sorted_by(keys_view(keys@), desc, b@),
        forall|x: int, y: int| 0 <= x < a@.len() && 0 <= y < b@.len() ==> #[trigger] a@[x] != #[trigger] b@[y],
    ensures
        res@.len() == a@.len() + b@.len(),
        forall|x: int| 0 <= x < res@.len() ==> #[trigger] res@[x] < keys@.len(),
        sorted_by(keys_view(keys@), desc, res@),
        forall|v: usize| #[trigger] res@.contains(v) <==> a@.contains(v) || b@.contains(v),
{
    let ghost kv = keys_view(keys@);
    let mut out: Vec<usize> = Vec::new();
    let mut i: usize = 0;
    let mut j: usize = 0;
    while i < a.len() || j < b.len()
        invariant
            kv == keys_view(keys@),
            orders_totally(kv, desc),
            forall|x: int| 0 <= x < a@.len() ==> #[trigger] a@[x] < keys@.len(),
            forall|x: int| 0 <= x < b@.len() ==> #[trigger] b@[x] < keys@.len(),
            sorted_by(kv, desc, a@),
            sorted_by(kv, desc, b@),
            forall|x: int, y: int| 0 <= x < a@.len() && 0 <= y < b@.len() ==> #[trigger] a@[x] != #[trigger] b@[y],
            i <= a@.len(),
            j <= b@.len(),
            out@.len() == i + j,
            forall|x: int| 0 <= x < out@.len() ==> #[trigger] out@[x] < keys@.len(),
            sorted_by(kv, desc, out@),
            forall|p: int, x: int|
                0 <= p < out@.len() && i <= x < a@.len() ==> comes_before(kv, desc, #[trigger] out@[p] as int, #[trigger] a@[x] as int),
            forall|p: int, y: int|
                0 <= p < out@.len() && j <= y < b@.len() ==> comes_before(kv, desc, #[trigger] out@[p] as int, #[trigger] b@[y] as int),
            forall|v: usize|
                #[trigger] out@.contains(v) <==> a@.take(i as int).contains(v) || b@.take(j as int).contains(v),
        decreases a@.len() + b@.len() - i - j,
    {
        let ghost old_out = out@;
        let ghost old_i = i as int;
        let ghost old_j = j as int;
        let take_a = if i < a.len() && j < b.len() {
            item_before(keys, desc, a[i], b[j])
        } else {
            i < a.len()
        };
        if take_a {
            let v = a[i];
            proof {
                if j < b@.len() {
                    assert(comes_before(kv, desc, v as int, b@[j as int] as int));
                }
                assert forall|y: int| j <= y < b@.len() implies comes_before(kv, desc, v as int, #[trigger] b@[y] as int) by {
                    if y > j {
                        assert(comes_before(kv, desc, b@[j as int] as int, b@[y] as int));
                    }
                }
            }
            out.push(v);
            proof {
                assert(a@.take(i + 1) =~= a@.take(i as int).push(v));
            }
            i = i + 1;
        } else {
            let v = b[j];
            proof {
                if i < a@.len() {
                    assert(a@[i as int] != v);
                    assert(comes_before(kv, desc, v as int, a@[i as int] as int));
                }
                assert forall|x: int| i <= x < a@.len() implies comes_before(kv, desc, v as int, #[trigger] a@[x] as int) by {
                    if x > i {
                        assert(comes_before(kv, desc, a@[i as int] as int, a@[x] as int));
                    }
                }
            }
            out.push(v);
            proof {
                assert(b@.take(j + 1) =~= b@.take(j as int).push(v));
            }
            j = j + 1;
        }
        proof {
            assert forall|p: int, q: int| 0 <= p < q < out@.len() implies comes_before(
                kv,
                desc,
                #[trigger] out@[p] as int,
                #[trigger] out@[q] as int,
            ) by {
                if q < old_out.len() {
                    assert(out@[p] == old_out[p] && out@[q] == old_out[q]);
                }
            }
            let pushed = out@[old_out.len() as int];
            assert(out@ == old_out.push(pushed));
            assert(take_a ==> i == old_i + 1 && j == old_j && pushed == a@[old_i]);
            assert(!take_a ==> j == old_j + 1 && i == old_i && pushed == b@[old_j]);
            assert forall|v: usize| #[trigger] out@.contains(v) <==> a@.take(i as int).contains(v) || b@.take(
                j as int,
            ).contains(v) by {
                if out@.contains(v) {
                    let p = choose|p: int| 0 <= p < out@.len() && out@[p] == v;
                    if p < old_out.len() {
                        assert(old_out[p] == v);
                        assert(old_out.contains(v));
                        if a@.take(old_i).contains(v) {
                            let q = choose|q: int| 0 <= q < old_i && a@.take(old_i)[q] == v;
                            assert(a@.take(i as int)[q] == v);
                        } else {
                            let q = choose|q: int| 0 <= q < old_j && b@.take(old_j)[q] == v;
                            assert(b@.take(j as int)[q] == v);
                        }
                    } else if take_a {
                        assert(a@.take(i as int)[old_i] == v);
                    } else {
                        assert(b@.take(j as int)[old_j] == v);
                    }
                }
                if a@.take(i as int).contains(v) {
                    let q = choose|q: int| 0 <= q < i && a@.take(i as int)[q] == v;
                    if q < old_i {
                        assert(a@.take(old_i)[q] == v);
                        assert(old_out.contains(v));
                        let p = choose|p: int| 0 <= p < old_out.len() && old_out[p] == v;
                        assert(out@[p] == v);
                    } else {
                        assert(out@[old_out.len() as int] == v);
                    }
                }
                if b@.take(j as int).contains(v) {
                    let q = choose|q: int| 0 <= q < j && b@.take(j as int)[q] == v;
                    if q < old_j {
                        assert(b@.take(old_j)[q] == v);
                        assert(old_out.contains(v));
                        let p = choose|p: int| 0 <= p < old_out.len() && old_out[p] == v;
                        assert(out@[p] == v);
                    } else {
                        assert(out@[old_out.len() as int] == v);
                    }
                }
            }
        }
    }
    assert(a@.take(a@.len() as int) =~= a@);
    assert(b@.take(b@.len() as int) =~= b@);
    out
}

/// Sorts the positions `items` in `comes_before` order.
fn merge_sort(keys: &Vec<SortKey>, desc: bool, items: Vec<usize>) -> (res: Vec<usize>)
    requires
        orders_totally(keys_view(keys@), desc),
        forall|x: int| 0 <= x < items@.len() ==> #[trigger] items@[x] < keys@.len(),
        forall|x: int, y: int| 0 <= x < y < items@.len() ==> #[trigger] items@[x] != #[trigger] items@[y],
    ensures
        res@.len() == items@.len(),
        forall|x: int| 0 <= x < res@.len() ==> #[trigger] res@[x] < keys@.len(),
        sorted_by(keys_view(keys@), desc, res@),
        forall|v: usize| #[trigger] res@.contains(v) <==> items@.contains(v),
    decreases items@.len(),
{
    if items.len() <= 1 {
        return items;
    }
    let mid = items.len() / 2;
    let mut left = items;
    let ghost all = left@;
    let right = left.split_off(mid);
    assert(left@ =~= all.subrange(0, mid as int));
    assert(right@ =~= all.subrange(mid as int, all.len() as int));
    let ghost lv = left@;
    let ghost rv = right@;
    let sl = merge_sort(keys, desc, left);
    let sr = merge_sort(keys, desc, right);
    proof {
        assert forall|x: int, y: int| 0 <= x < sl@.len() && 0 <= y < sr@.len() implies #[trigger] sl@[x] != #[trigger] sr@[y] by {
            assert(sl@.contains(sl@[x]));
            assert(sr@.contains(sr@[y]));
            assert(lv.contains(sl@[x]));
            assert(rv.contains(sr@[y]));
            let p = choose|p: int| 0 <= p < lv.len() && lv[p] == sl@[x];
            let q = choose|q: int| 0 <= q < rv.len() && rv[q] == sr@[y];
            assert(lv[p] == all[p]);
            assert(rv[q] == all[mid + q]);
        }
    }
    let res = merge(keys, desc, sl, sr);
    proof {
        assert forall|v: usize| #[trigger] res@.contains(v) <==> all.contains(v) by {
            if all.contains(v) {
                let p = choose|p: int| 0 <= p < all.len() && all[p] == v;
                if p < mid {
                    assert(all.subrange(0, mid as int)[p] == v);
                } else {
                    assert(all.subrange(mid as int, all.len() as int)[p - mid] == v);
                }
            }
        }
    }
    res
}

/// The positions of `keys` in sorted order: ascending by key, or descending
/// where `desc` holds, with items of equal keys in their given order (a
/// stable sort).
pub fn sort_order(keys: &Vec<SortKey>, desc: bool) -> (ord: Vec<usize>)
    ensures
        is_sorted_order(keys_view(keys@), desc, ord@),
{
    let ghost kv = keys_view(keys@);
    proof {
        lemma_comes_before_total_order(kv, desc);
    }
    let n = keys.len();
    let mut items: Vec<usize> = Vec::new();
    let mut i: usize = 0;
    while i < n
        invariant
            n == keys@.len(),
            i <= n,
            items@.len() == i,
            forall|x: int| 0 <= x < i ==> #[trigger] items@[x] == x,
        decreases n - i,
    {
        items.push(i);
        i = i + 1;
    }
    let ord = merge_sort(keys, desc, items);
    proof {
        assert forall|k: usize| k < kv.len() implies #[trigger] ord@.contains(k) by {
            assert(items@[k as int] == k);
            assert(items@.contains(k));
        }
    }
    ord
}

/// The sorted order is unique: two orders that both list the positions of
/// `keys` as `comes_before` asks are the same.
pub proof fn lemma_sorted_order_unique(keys: Seq<KeyValue>, desc: bool, o1: Seq<usize>, o2: Seq<usize>)
    requires
        is_sorted_order(keys, desc, o1),
        is_sorted_order(keys, desc, o2),
    ensures
        o1 == o2,
{
    lemma_comes_before_total_order(keys, desc);
    if o1 != o2 {
        assert(!(o1 =~= o2));
        let a = choose|a: int| 0 <= a < o1.len() && o1[a] != o2[a];
        let first = choose|f: int| 0 <= f < o1.len() && o1[f] != o2[f] && forall|g: int| 0 <= g < f ==> o1[g] == o2[g];
        assert(exists|f: int| 0 <= f < o1.len() && o1[f] != o2[f] && forall|g: int| 0 <= g < f ==> o1[g] == o2[g]) by {
            lemma_first_difference(o1, o2, a);
        }
        let x = o1[first];
        let y = o2[first];
        assert(o1.contains(y));
        let b = choose|b: int| 0 <= b < o1.len() && o1[b] == y;
        assert(o2.contains(x));
        let c = choose|c: int| 0 <= c < o2.len() && o2[c] == x;
        if b < first {
            assert(o2[b] == y);
            assert(comes_before(keys, desc, o2[b] as int, o2[first] as int));
        }
        if c < first {
            assert(o1[c] == x);
            assert(comes_before(keys, desc, o1[c] as int, o1[first] as int));
        }
        assert(comes_before(keys, desc, o1[first] as int, o1[b] as int));
        assert(comes_before(keys, desc, o2[first] as int, o2[c] as int));
        assert(comes_before(keys, desc, x as int, x as int));
    }
}

/// Where no two keys are equal, the descending order is the ascending one
/// reversed: the item at place `a` of one is at place `n - 1 - a` of the
/// other.
pub proof fn lemma_desc_reverses_asc(keys: Seq<KeyValue>, asc: Seq<usize>, desc: Seq<usize>)
    requires
        forall|i: int, j: int| 0 <= i < j < keys.len() ==> #[trigger] keys[i] != #[trigger] keys[j],
        is_sorted_order(keys, false, asc),
        is_sorted_order(keys, true, desc),
    ensures
        forall|a: int| 0 <= a < keys.len() ==> #[trigger] desc[a] == asc[keys.len() - 1 - a],
{
    lemma_comes_before_total_order(keys, false);
    let n = keys.len() as int;
    let rev = Seq::new(n as nat, |a: int| asc[n - 1 - a]);
    assert forall|a: int| 0 <= a < rev.len() implies #[trigger] rev[a] < keys.len() by {
        assert(asc[n - 1 - a] < keys.len());
    }
    assert forall|k: usize| k < keys.len() implies #[trigger] rev.contains(k) by {
        assert(asc.contains(k));
        let a = choose|a: int| 0 <= a < asc.len() && asc[a] == k;
        assert(rev[n - 1 - a] == k);
    }
    assert forall|a: int, b: int| 0 <= a < b < rev.len() implies comes_before(
        keys,
        true,
        #[trigger] rev[a] as int,
        #[trigger] rev[b] as int,
    ) by {
        let x = asc[n - 1 - b] as int;
        let y = asc[n - 1 - a] as int;
        assert(comes_before(keys, false, x, y));
        assert(x != y);
        if x < y {
            assert(keys[x] != keys[y]);
        } else {
            assert(keys[y] != keys[x]);
        }
    }
    assert(is_sorted_order(keys, true, rev));
    lemma_sorted_order_unique(keys, true, rev, desc);
}

proof fn lemma_first_difference(o1: Seq<usize>, o2: Seq<usize>, a: int)
    requires
        0 <= a < o1.len(),
        o1.len() == o2.len(),
        o1[a] != o2[a],
    ensures
        exists|f: int| 0 <= f < o1.len() && o1[f] != o2[f] && forall|g: int| 0 <= g < f ==> o1[g] == o2[g],
    decreases a,
{
    if forall|g: int| 0 <= g < a ==> o1[g] == o2[g] {
        assert(0 <= a < o1.len() && o1[a] != o2[a] && forall|g: int| 0 <= g < a ==> o1[g] == o2[g]);
    } else {
        let g = choose|g: int| 0 <= g < a && o1[g] != o2[g];
        lemma_first_difference(o1, o2, g);
    }
}

} // verus!
