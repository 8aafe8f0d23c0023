//! Finding duplicate files: files of one size are candidates, and among the
//! candidates, files with one digest are duplicates of each other.
use vstd::prelude::*;
use crate::order::{
    Rel, bytes_lt, byte_order, compare_bytes, lemma_byte_order_strict_total, lemma_lex_irreflexive,
    lemma_lex_total, lemma_lex_transitive,
};
use crate::path::{parse_path, path_lt, path_parts};
use crate::sorting::{SortKey, KeyValue, keys_view, comes_before, is_sorted_order, sort_order};

verus! {

/// A file found in the directory, with its size in bytes.
pub struct FileEntry {
    pub path: String,
    pub size: u64,
}

/// A candidate file with the digest of its contents.
pub struct HashedFile {
    pub path: String,
    pub hash: Vec<u8>,
}

/// Files that share one digest.
pub struct DupGroup {
    /// The digest that the files share.
    pub hash: Vec<u8>,
    /// The positions of the files among the hashed files.
    pub members: Vec<usize>,
    /// The paths of the files, in the order of `members`.
    pub files: Vec<String>,
}

/// Some other entry has the size of entry `k`.
pub open spec fn shares_size(entries: Seq<FileEntry>, k: int) -> bool {
    exists|j: int| 0 <= j < entries.len() && j != k && #[trigger] entries[j].size == entries[k].size
}

/// The digest of hashed file `k`.
pub open spec fn hash_at(files: Seq<HashedFile>, k: int) -> Seq<u8> {
    files[k].hash@
}

/// The parts of the path of hashed file `k`.
pub open spec fn parts_at(files: Seq<HashedFile>, k: int) -> Seq<Seq<char>> {
    path_parts(files[k].path@)
}

/// Some other hashed file has the digest of file `k`.
pub open spec fn shares_hash(files: Seq<HashedFile>, k: int) -> bool {
    exists|j: int| 0 <= j < files.len() && j != k && #[trigger] hash_at(files, j) == hash_at(files, k)
}

/// File `a` is listed before file `b` within a group: by path, and by
/// position where the paths are the same.
pub open spec fn listed_before(files: Seq<HashedFile>, a: int, b: int) -> bool {
    path_lt(parts_at(files, a), parts_at(files, b)) || (parts_at(files, a) == parts_at(files, b) && a < b)
}

/// `g` holds, in order, every hashed file whose digest is `g.hash`, and
/// there are at least two of them.
pub open spec fn is_group_of(files: Seq<HashedFile>, g: DupGroup) -> bool {
    &&& g.members@.len() >= 2
    &&& g.files@.len() == g.members@.len()
    &&& forall|a: int|
        0 <= a < g.members@.len() ==> {
            &&& #[trigger] g.members@[a] < files.len()
            &&& hash_at(files, g.members@[a] as int) == g.hash@
            &&& g.files@[a]@ == files[g.members@[a] as int].path@
        }
    &&& forall|k: usize| k < files.len() && hash_at(files, k as int) == g.hash@ ==> #[trigger] g.members@.contains(k)
    &&& forall|a: int, b: int|
        0 <= a < b < g.members@.len() ==> listed_before(files, #[trigger] g.members@[a] as int, #[trigger] g.members@[b] as int)
}

/// The positions of the entries whose size some other entry shares, in
/// increasing order: the files that may have a duplicate.
pub fn same_size_files(entries: &Vec<FileEntry>) -> (res: Vec<usize>)
    ensures
        forall|a: int, b: int| 0 <= a < b < res@.len() ==> #[trigger] res@[a] < #[trigger] res@[b],
        forall|a: int| 0 <= a < res@.len() ==> #[trigger] res@[a] < entries@.len(),
        forall|k: usize| k < entries@.len() ==> (#[trigger] res@.contains(k) <==> shares_size(entries@, k as int)),
{
    let n = entries.len();
    let mut keys: Vec<SortKey> = Vec::new();
    let mut k: usize = 0;
    while k < n
        invariant
            n == entries@.len(),
            k <= n,
            keys@.len() == k,
            forall|j: int| 0 <= j < k ==> #[trigger] keys_view(keys@)[j] == KeyValue::Size(entries@[j].size),
        decreases n - k,
    {
        let ghost old_keys = keys@;
        keys.push(SortKey::Size(entries[k].size));
        proof {
            assert forall|j: int| 0 <= j < k + 1 implies #[trigger] keys_view(keys@)[j] == KeyValue::Size(
                entries@[j].size,
            ) by {
                if j < k {
                    assert(keys@[j] == old_keys[j]);
                    assert(keys_view(old_keys)[j] == KeyValue::Size(entries@[j].size));
                }
            }
        }
        k = k + 1;
    }
    let ghost kv = keys_view(keys@);
    let ord = sort_order(&keys, false);
    let ghost sz = |p: int| entries@[ord@[p] as int].size;
    // Sizes never decrease along the sorted order.
    assert forall|a: int, b: int| 0 <= a < b < n implies #[trigger] sz(a) <= #[trigger] sz(b) by {
        assert(comes_before(kv, false, ord@[a] as int, ord@[b] as int));
        assert(kv[ord@[a] as int] == KeyValue::Size(entries@[ord@[a] as int].size));
        assert(kv[ord@[b] as int] == KeyValue::Size(entries@[ord@[b] as int].size));
    }
    // Positions in the order are distinct.
    assert forall|a: int, b: int| 0 <= a < b < n implies #[trigger] ord@[a] != #[trigger] ord@[b] by {
        assert(comes_before(kv, false, ord@[a] as int, ord@[b] as int));
    }
    let mut flags: Vec<bool> = Vec::new();
    let mut j: usize = 0;
    while j < n
        invariant
            j <= n,
            flags@.len() == j,
            forall|q: int| 0 <= q < j ==> !#[trigger] flags@[q],
        decreases n - j,
    {
        flags.push(false);
        j = j + 1;
    }
    let mut p: usize = 0;
    while p < n
        invariant
            n == entries@.len(),
            ord@.len() == n,
            flags@.len() == n,
            p <= n,
            is_sorted_order(kv, false, ord@),
            forall|a: int| 0 <= a < n ==> #[trigger] ord@[a] < n,
            forall|a: int, b: int| 0 <= a < b < n ==> #[trigger] sz(a) <= #[trigger] sz(b),
            forall|a: int, b: int| 0 <= a < b < n ==> #[trigger] ord@[a] != #[trigger] ord@[b],
            forall|a: int| 0 <= a < n ==> sz(a) == #[trigger] entries@[ord@[a] as int].size,
            forall|q: int| 0 <= q < p ==> flags@[#[trigger] ord@[q] as int] == shares_size(entries@, ord@[q] as int),
        decreases n - p,
    {
        let k = ord[p];
        let size = entries[k].size;
        let shared = (p > 0 && entries[ord[p - 1]].size == size) || (p + 1 < n && entries[ord[p + 1]].size == size);
        proof {
            if shared {
                if p > 0 && entries@[ord@[p - 1] as int].size == size {
                    assert(ord@[p - 1] != ord@[p as int]);
                } else {
                    assert(ord@[p as int] != ord@[p + 1]);
                }
            } else {
                if shares_size(entries@, k as int) {
                    let w = choose|w: int| 0 <= w < entries@.len() && w != k && #[trigger] entries@[w].size == entries@[k as int].size;
                    assert(ord@.contains(w as usize));
                    let pw = choose|pw: int| 0 <= pw < ord@.len() && ord@[pw] == w as usize;
                    if pw < p {
                        assert(sz(pw) <= sz(p - 1));
                        assert(sz(p - 1) <= sz(p as int));
                    } else {
                        assert(pw != p);
                        assert(sz(p as int) <= sz(p + 1));
                        assert(sz(p + 1) <= sz(pw));
                    }
                }
            }
        }
        let ghost old_flags = flags@;
        flags.set(k, shared);
        proof {
            assert forall|q: int| 0 <= q < p + 1 implies flags@[#[trigger] ord@[q] as int] == shares_size(
                entries@,
                ord@[q] as int,
            ) by {
                if q < p {
                    assert(ord@[q] != ord@[p as int]);
                    assert(flags@[ord@[q] as int] == old_flags[ord@[q] as int]);
                }
            }
        }
        p = p + 1;
    }
    assert forall|k: usize| k < n implies #[trigger] flags@[k as int] == shares_size(entries@, k as int) by {
        assert(ord@.contains(k));
        let q = choose|q: int| 0 <= q < ord@.len() && ord@[q] == k;
        assert(flags@[ord@[q] as int] == shares_size(entries@, ord@[q] as int));
    }
    let mut res: Vec<usize> = Vec::new();
    let mut k: usize = 0;
    while k < n
        invariant
            n == entries@.len(),
            flags@.len() == n,
            k <= n,
            forall|i: usize| i < n ==> #[trigger] flags@[i as int] == shares_size(entries@, i as int),
            forall|a: int, b: int| 0 <= a < b < res@.len() ==> #[trigger] res@[a] < #[trigger] res@[b],
            forall|a: int| 0 <= a < res@.len() ==> #[trigger] res@[a] < k,
            forall|i: usize| i < k ==> (#[trigger] res@.contains(i) <==> shares_size(entries@, i as int)),
        decreases n - k,
    {
        let ghost old_res = res@;
        if flags[k] {
            res.push(k);
        }
        proof {
            assert forall|i: usize| i < k + 1 implies (#[trigger] res@.contains(i) <==> shares_size(
                entries@,
                i as int,
            )) by {
                if i < k {
                    if old_res.contains(i) {
                        let q = choose|q: int| 0 <= q < old_res.len() && old_res[q] == i;
                        assert(res@[q] == i);
                    }
                    if res@.contains(i) {
                        let q = choose|q: int| 0 <= q < res@.len() && res@[q] == i;
                        if q < old_res.len() {
                            assert(old_res[q] == i);
                        }
                    }
                } else {
                    if flags@[k as int] {
                        assert(res@[res@.len() - 1] == k);
                    } else {
                        assert(res@ == old_res);
                    }
                }
            }
        }
        k = k + 1;
    }
    res
}

/// The digest of a key that holds one.
pub open spec fn key_digest(k: KeyValue) -> Seq<u8> {
    match k {
        KeyValue::Digest(h, _) => h,
        _ => Seq::empty(),
    }
}

fn copy_bytes(v: &Vec<u8>) -> (res: Vec<u8>)
    ensures
        res@ == v@,
{
    let mut res: Vec<u8> = Vec::new();
    let mut i: usize = 0;
    while i < v.len()
        invariant
            i <= v@.len(),
            res@ == v@.take(i as int),
        decreases v@.len() - i,
    {
        res.push(v[i]);
        i = i + 1;
        assert(res@ =~= v@.take(i as int));
    }
    assert(v@.take(v@.len() as int) =~= v@);
    res
}

/// The hashed files grouped by digest: one group for each digest that two or
/// more files share, holding every file with that digest, ordered by path;
/// the groups ordered by digest.
pub fn group_duplicates(files: &Vec<HashedFile>) -> (groups: Vec<DupGroup>)
    ensures
        forall|g: int| 0 <= g < groups@.len() ==> is_group_of(files@, #[trigger] groups@[g]),
        forall|g1: int, g2: int|
            0 <= g1 < g2 < groups@.len() ==> bytes_lt(#[trigger] groups@[g1].hash@, #[trigger] groups@[g2].hash@),
        forall|k: usize|
            k < files@.len() && #[trigger] shares_hash(files@, k as int) ==> exists|g: int|
                0 <= g < groups@.len() && #[trigger] groups@[g].hash@ == hash_at(files@, k as int),
{
    let n = files.len();
    let ghost fs = files@;
    let mut keys: Vec<SortKey> = Vec::new();
    let mut k: usize = 0;
    while k < n
        invariant
            n == fs.len(),
            fs == files@,
            k <= n,
            keys@.len() == k,
            forall|j: int| 0 <= j < k ==> #[trigger] keys_view(keys@)[j] == KeyValue::Digest(
                hash_at(fs, j),
                parts_at(fs, j),
            ),
        decreases n - k,
    {
        let ghost old_keys = keys@;
        let h = copy_bytes(&files[k].hash);
        let parts = parse_path(files[k].path.as_str());
        keys.push(SortKey::Digest(h, parts));
        proof {
            assert forall|j: int| 0 <= j < k + 1 implies #[trigger] keys_view(keys@)[j] == KeyValue::Digest(
                hash_at(fs, j),
                parts_at(fs, j),
            ) by {
                if j < k {
                    assert(keys@[j] == old_keys[j]);
                    assert(keys_view(old_keys)[j] == KeyValue::Digest(hash_at(fs, j), parts_at(fs, j)));
                }
            }
        }
        k = k + 1;
    }
    let ghost kv = keys_view(keys@);
    let ord = sort_order(&keys, false);
    let ghost hp = |p: int| hash_at(fs, ord@[p] as int);
    proof {
        lemma_byte_order_strict_total();
        // Digests never decrease along the sorted order.
        assert forall|a: int, b: int| 0 <= a < b < n implies !bytes_lt(#[trigger] hp(b), #[trigger] hp(a)) by {
            assert(comes_before(kv, false, ord@[a] as int, ord@[b] as int));
            assert(kv[ord@[a] as int] == KeyValue::Digest(hash_at(fs, ord@[a] as int), parts_at(fs, ord@[a] as int)));
            assert(kv[ord@[b] as int] == KeyValue::Digest(hash_at(fs, ord@[b] as int), parts_at(fs, ord@[b] as int)));
            lemma_lex_irreflexive(hp(a), byte_order());
            if bytes_lt(hp(b), hp(a)) && bytes_lt(hp(a), hp(b)) {
                lemma_lex_transitive(hp(a), hp(b), hp(a), byte_order());
            }
        }
        // Within one digest, files come by path, then by position.
        assert forall|a: int, b: int| 0 <= a < b < n && hp(a) == hp(b) implies listed_before(
            fs,
            #[trigger] ord@[a] as int,
            #[trigger] ord@[b] as int,
        ) by {
            assert(comes_before(kv, false, ord@[a] as int, ord@[b] as int));
            assert(kv[ord@[a] as int] == KeyValue::Digest(hash_at(fs, ord@[a] as int), parts_at(fs, ord@[a] as int)));
            assert(kv[ord@[b] as int] == KeyValue::Digest(hash_at(fs, ord@[b] as int), parts_at(fs, ord@[b] as int)));
            lemma_lex_irreflexive(hp(a), byte_order());
        }
        assert forall|a: int, b: int| 0 <= a < b < n implies #[trigger] ord@[a] != #[trigger] ord@[b] by {
            assert(comes_before(kv, false, ord@[a] as int, ord@[b] as int));
        }
    }
    let mut groups: Vec<DupGroup> = Vec::new();
    let mut s: usize = 0;
    while s < n
        invariant
            n == fs.len(),
            fs == files@,
            ord@.len() == n,
            s <= n,
            is_sorted_order(kv, false, ord@),
            forall|a: int| 0 <= a < n ==> #[trigger] ord@[a] < n,
            forall|a: int| 0 <= a < n ==> #[trigger] hp(a) == hash_at(fs, ord@[a] as int),
            forall|a: int, b: int| 0 <= a < b < n ==> !bytes_lt(#[trigger] hp(b), #[trigger] hp(a)),
            forall|a: int, b: int|
                0 <= a < b < n && hp(a) == hp(b) ==> listed_before(fs, #[trigger] ord@[a] as int, #[trigger] ord@[b] as int),
            forall|a: int, b: int| 0 <= a < b < n ==> #[trigger] ord@[a] != #[trigger] ord@[b],
            0 < s < n ==> hp(s - 1) != hp(s as int),
            forall|g: int| 0 <= g < groups@.len() ==> is_group_of(fs, #[trigger] groups@[g]),
            forall|g1: int, g2: int|
                0 <= g1 < g2 < groups@.len() ==> bytes_lt(#[trigger] groups@[g1].hash@, #[trigger] groups@[g2].hash@),
            s < n ==> forall|g: int| 0 <= g < groups@.len() ==> bytes_lt(#[trigger] groups@[g].hash@, hp(s as int)),
            forall|q: int|
                #![trigger ord@[q]]
                0 <= q < s ==> (exists|g: int| 0 <= g < groups@.len() && #[trigger] groups@[g].hash@ == hp(q))
                    || (forall|j: int| 0 <= j < n && #[trigger] hash_at(fs, j) == hp(q) ==> j == ord@[q] as int),
        decreases n - s,
    {
        let first = ord[s];
        let mut e: usize = s + 1;
        while e < n && compare_bytes(files[ord[e]].hash.as_slice(), files[first].hash.as_slice()) == Rel::Equal
            invariant
                n == fs.len(),
                fs == files@,
                ord@.len() == n,
                s < e <= n,
                first == ord@[s as int],
                forall|a: int| 0 <= a < n ==> #[trigger] ord@[a] < n,
                forall|a: int| 0 <= a < n ==> #[trigger] hp(a) == hash_at(fs, ord@[a] as int),
                forall|c: int| s <= c < e ==> #[trigger] hp(c) == hp(s as int),
            decreases n - e,
        {
            e = e + 1;
        }
        let ghost h = hp(s as int);
        proof {
            lemma_byte_order_strict_total();
        }
        // The run from `s` to `e` holds every file with digest `h`.
        assert forall|j: int| 0 <= j < n && #[trigger] hash_at(fs, j) == h implies exists|c: int|
            s <= c < e && ord@[c] as int == j by {
            assert(ord@.contains(j as usize));
            let c = choose|c: int| 0 <= c < ord@.len() && ord@[c] == j as usize;
            if c < s {
                assert(!bytes_lt(hp(s - 1), hp(c)));
                assert(!bytes_lt(hp(s as int), hp(s - 1)));
                lemma_lex_total(hp(s - 1), h, byte_order());
            } else if c >= e {
                assert(e < n);
                assert(hp(e as int) != h);
                assert(!bytes_lt(hp(e as int), hp(s as int)));
                if c > e {
                    assert(!bytes_lt(hp(c), hp(e as int)));
                }
                lemma_lex_total(hp(e as int), h, byte_order());
            }
        }
        let ghost before_groups = groups@;
        if e - s >= 2 {
            let mut members: Vec<usize> = Vec::new();
            let mut paths: Vec<String> = Vec::new();
            let mut c: usize = s;
            while c < e
                invariant
                    n == fs.len(),
                    fs == files@,
                    ord@.len() == n,
                    s <= c <= e <= n,
                    forall|a: int| 0 <= a < n ==> #[trigger] ord@[a] < n,
                    members@ == ord@.subrange(s as int, c as int),
                    paths@.len() == members@.len(),
                    forall|a: int| 0 <= a < paths@.len() ==> #[trigger] paths@[a]@ == fs[members@[a] as int].path@,
                decreases e - c,
            {
                let m = ord[c];
                members.push(m);
                paths.push(files[m].path.clone());
                c = c + 1;
                assert(members@ =~= ord@.subrange(s as int, c as int));
            }
            let group = DupGroup { hash: copy_bytes(&files[first].hash), members, files: paths };
            let ghost old_groups = groups@;
            proof {
                assert(group.hash@ == h);
                assert forall|a: int| 0 <= a < group.members@.len() implies {
                    &&& #[trigger] group.members@[a] < fs.len()
                    &&& hash_at(fs, group.members@[a] as int) == group.hash@
                    &&& group.files@[a]@ == fs[group.members@[a] as int].path@
                } by {
                    assert(group.members@[a] == ord@[s + a]);
                    assert(hp(s + a) == h);
                }
                assert forall|k: usize| k < fs.len() && hash_at(fs, k as int) == group.hash@ implies #[trigger] group.members@.contains(k) by {
                    let c = choose|c: int| s <= c < e && ord@[c] as int == k as int;
                    assert(group.members@[c - s] == k);
                }
                assert forall|a: int, b: int| 0 <= a < b < group.members@.len() implies listed_before(
                    fs,
                    #[trigger] group.members@[a] as int,
                    #[trigger] group.members@[b] as int,
                ) by {
                    assert(group.members@[a] == ord@[s + a]);
                    assert(group.members@[b] == ord@[s + b]);
                    assert(hp(s + a) == h && hp(s + b) == h);
                }
                assert(is_group_of(fs, group));
            }
            groups.push(group);
            proof {
                assert forall|g: int| 0 <= g < groups@.len() implies is_group_of(fs, #[trigger] groups@[g]) by {
                    if g < old_groups.len() {
                        assert(groups@[g] == old_groups[g]);
                    }
                }
                assert forall|g1: int, g2: int| 0 <= g1 < g2 < groups@.len() implies bytes_lt(
                    #[trigger] groups@[g1].hash@,
                    #[trigger] groups@[g2].hash@,
                ) by {
                    assert(groups@[g1] == old_groups[g1]);
                    if g2 < old_groups.len() {
                        assert(groups@[g2] == old_groups[g2]);
                    }
                }
            }
        }
        assert(groups@.len() >= before_groups.len());
        assert(forall|g: int| 0 <= g < before_groups.len() ==> groups@[g] == before_groups[g]);
        proof {
            if e < n {
                assert(hp(e as int) != h);
                assert(!bytes_lt(hp(e as int), hp(s as int)));
                if !bytes_lt(h, hp(e as int)) {
                    lemma_lex_total(hp(e as int), h, byte_order());
                }
                assert(bytes_lt(h, hp(e as int)));
                assert forall|g: int| 0 <= g < groups@.len() implies bytes_lt(#[trigger] groups@[g].hash@, hp(e as int)) by {
                    if groups@[g].hash@ != h {
                        lemma_lex_transitive(groups@[g].hash@, h, hp(e as int), byte_order());
                    }
                }
                assert(hp(e - 1) == h);
            }
            assert forall|q: int| #![trigger ord@[q]] 0 <= q < e implies (exists|g: int| 0 <= g < groups@.len() && #[trigger] groups@[g].hash@ == hp(q))
                || (forall|j: int| 0 <= j < n && #[trigger] hash_at(fs, j) == hp(q) ==> j == ord@[q] as int) by {
                if q >= s {
                    assert(hp(q) == h);
                    if e - s >= 2 {
                        assert(groups@[groups@.len() - 1].hash@ == h);
                    } else {
                        assert(q == s);
                        assert forall|j: int| 0 <= j < n && #[trigger] hash_at(fs, j) == hp(q) implies j == ord@[q] as int by {
                            let c = choose|c: int| s <= c < e && ord@[c] as int == j;
                        }
                    }
                } else {
                    if exists|g: int| 0 <= g < before_groups.len() && #[trigger] before_groups[g].hash@ == hp(q) {
                        let g = choose|g: int| 0 <= g < before_groups.len() && #[trigger] before_groups[g].hash@ == hp(q);
                        assert(groups@[g] == before_groups[g]);
                    }
                }
            }
        }
        s = e;
    }
    proof {
        assert forall|k: usize| k < fs.len() && #[trigger] shares_hash(fs, k as int) implies exists|g: int|
            0 <= g < groups@.len() && #[trigger] groups@[g].hash@ == hash_at(fs, k as int) by {
            assert(ord@.contains(k));
            let q = choose|q: int| 0 <= q < ord@.len() && ord@[q] == k;
            let w = choose|w: int| 0 <= w < fs.len() && w != k && #[trigger] hash_at(fs, w) == hash_at(fs, k as int);
            assert(hash_at(fs, w) == hp(q));
        }
    }
    groups
}

/// The eight bytes of a size, most significant first.
pub open spec fn size_bytes(size: u64) -> Seq<u8> {
    seq![
        (size >> 56u64) as u8,
        (size >> 48u64) as u8,
        (size >> 40u64) as u8,
        (size >> 32u64) as u8,
        (size >> 24u64) as u8,
        (size >> 16u64) as u8,
        (size >> 8u64) as u8,
        size as u8,
    ]
}

fn size_bytes_of(size: u64) -> (res: Vec<u8>)
    ensures
        res@ == size_bytes(size),
{
    let res = vec![
        (size >> 56u64) as u8,
        (size >> 48u64) as u8,
        (size >> 40u64) as u8,
        (size >> 32u64) as u8,
        (size >> 24u64) as u8,
        (size >> 16u64) as u8,
        (size >> 8u64) as u8,
        size as u8,
    ];
    assert(res@ =~= size_bytes(size));
    res
}

proof fn lemma_size_bytes_injective(a: u64, b: u64)
    requires
        size_bytes(a) == size_bytes(b),
    ensures
        a == b,
{
    let x = size_bytes(a);
    let y = size_bytes(b);
    assert(x[0] == y[0] && x[1] == y[1] && x[2] == y[2] && x[3] == y[3]);
    assert(x[4] == y[4] && x[5] == y[5] && x[6] == y[6] && x[7] == y[7]);
    assert((a >> 56u64) as u8 == (b >> 56u64) as u8 && (a >> 48u64) as u8 == (b >> 48u64) as u8 && (a >> 40u64) as u8
        == (b >> 40u64) as u8 && (a >> 32u64) as u8 == (b >> 32u64) as u8 && (a >> 24u64) as u8 == (b >> 24u64) as u8
        && (a >> 16u64) as u8 == (b >> 16u64) as u8 && (a >> 8u64) as u8 == (b >> 8u64) as u8 && a as u8 == b as u8
        ==> a == b) by (bit_vector);
}

/// The key by which hashed entries are grouped: the digest, then the
/// bytes of the size.
pub open spec fn sized_key(digest: Seq<u8>, size: u64) -> Seq<u8> {
    digest + size_bytes(size)
}

/// Two entries have one key exactly when they have one digest and one size.
pub proof fn lemma_sized_key_injective(d1: Seq<u8>, s1: u64, d2: Seq<u8>, s2: u64)
    ensures
        sized_key(d1, s1) == sized_key(d2, s2) <==> (d1 == d2 && s1 == s2),
{
    if sized_key(d1, s1) == sized_key(d2, s2) {
        let k = sized_key(d1, s1);
        assert(size_bytes(s1).len() == 8 && size_bytes(s2).len() == 8);
        assert(k.len() == sized_key(d2, s2).len());
        assert(d1.len() == d2.len());
        assert(d1 =~= k.take(d1.len() as int));
        assert(d2 =~= sized_key(d2, s2).take(d2.len() as int));
        assert(size_bytes(s1) =~= k.skip(d1.len() as int));
        assert(size_bytes(s2) =~= sized_key(d2, s2).skip(d2.len() as int));
        lemma_size_bytes_injective(s1, s2);
    }
}

/// The view of an optional digest.
pub open spec fn digest_view(d: Option<Vec<u8>>) -> Option<Seq<u8>> {
    match d {
        Some(h) => Some(h@),
        None => None,
    }
}

/// The digest of entry `k`, where it is a candidate that was hashed,
/// searching the candidates from position `i` on.
pub open spec fn entry_digest_from(candidates: Seq<usize>, digests: Seq<Option<Vec<u8>>>, k: int, i: int) -> Option<
    Seq<u8>,
>
    decreases candidates.len() - i,
{
    if i < 0 || i >= candidates.len() {
        None
    } else if candidates[i] as int == k {
        digest_view(digests[i])
    } else {
        entry_digest_from(candidates, digests, k, i + 1)
    }
}

/// The digest of entry `k`, where it is a candidate that was hashed.
pub open spec fn entry_digest(candidates: Seq<usize>, digests: Seq<Option<Vec<u8>>>, k: int) -> Option<Seq<u8>> {
    entry_digest_from(candidates, digests, k, 0)
}

/// Entry `a` is listed before entry `b` within a group: by path, and by
/// position where the paths are the same.
pub open spec fn entry_listed_before(entries: Seq<FileEntry>, a: int, b: int) -> bool {
    let pa = path_parts(entries[a].path@);
    let pb = path_parts(entries[b].path@);
    path_lt(pa, pb) || (pa == pb && a < b)
}

/// The size of the files of group `g`: that of its first member.
pub open spec fn group_size(entries: Seq<FileEntry>, g: DupGroup) -> u64 {
    entries[g.members@[0] as int].size
}

/// The key of group `g`: its digest, then the bytes of its size.
pub open spec fn group_key(entries: Seq<FileEntry>, g: DupGroup) -> Seq<u8> {
    sized_key(g.hash@, group_size(entries, g))
}

/// `g` holds, in order, every entry that was hashed with digest `g.hash`
/// and has the size of `g`, and there are at least two of them: its files
/// have one size and one digest.
pub open spec fn is_entry_group(
    entries: Seq<FileEntry>,
    candidates: Seq<usize>,
    digests: Seq<Option<Vec<u8>>>,
    g: DupGroup,
) -> bool {
    &&& g.members@.len() >= 2
    &&& g.files@.len() == g.members@.len()
    &&& forall|a: int|
        0 <= a < g.members@.len() ==> {
            &&& #[trigger] g.members@[a] < entries.len()
            &&& entry_digest(candidates, digests, g.members@[a] as int) == Some(g.hash@)
            &&& entries[g.members@[a] as int].size == group_size(entries, g)
            &&& g.files@[a]@ == entries[g.members@[a] as int].path@
        }
    &&& forall|k: usize|
        k < entries.len() && entry_digest(candidates, digests, k as int) == Some(g.hash@) && entries[k as int].size
            == group_size(entries, g) ==> #[trigger] g.members@.contains(k)
    &&& forall|a: int, b: int|
        0 <= a < b < g.members@.len() ==> entry_listed_before(entries, #[trigger] g.members@[a] as int, #[trigger] g.members@[b] as int)
}

/// Entry `k` was hashed, and some other entry of the same size was hashed
/// with the same digest.
pub open spec fn shares_digest(
    entries: Seq<FileEntry>,
    candidates: Seq<usize>,
    digests: Seq<Option<Vec<u8>>>,
    k: int,
) -> bool {
    &&& entry_digest(candidates, digests, k) is Some
    &&& exists|j: int|
        0 <= j < entries.len() && j != k && #[trigger] entry_digest(candidates, digests, j) == entry_digest(
            candidates,
            digests,
            k,
        ) && entries[j].size == entries[k].size
}

proof fn lemma_entry_digest_at(candidates: Seq<usize>, digests: Seq<Option<Vec<u8>>>, i: int, i0: int)
    requires
        forall|a: int, b: int| 0 <= a < b < candidates.len() ==> #[trigger] candidates[a] < #[trigger] candidates[b],
        0 <= i <= i0 < candidates.len(),
    ensures
        entry_digest_from(candidates, digests, candidates[i0] as int, i) == digest_view(digests[i0]),
    decreases i0 - i,
{
    if i < i0 {
        assert(candidates[i] < candidates[i0]);
        lemma_entry_digest_at(candidates, digests, i + 1, i0);
    }
}

proof fn lemma_entry_digest_found(candidates: Seq<usize>, digests: Seq<Option<Vec<u8>>>, k: int, i: int)
    requires
        0 <= i,
        entry_digest_from(candidates, digests, k, i) is Some,
    ensures
        exists|t: int|
            i <= t < candidates.len() && candidates[t] as int == k && #[trigger] digest_view(digests[t])
                == entry_digest_from(candidates, digests, k, i),
    decreases candidates.len() - i,
{
    if candidates[i] as int != k {
        lemma_entry_digest_found(candidates, digests, k, i + 1);
    } else {
        assert(digest_view(digests[i]) == entry_digest_from(candidates, digests, k, i));
    }
}

/// Every file of a group was a candidate: where the candidates are the
/// files whose size another file shares, each file of a group shares its
/// size with another file.
pub proof fn lemma_group_members_share_size(
    entries: Seq<FileEntry>,
    candidates: Seq<usize>,
    digests: Seq<Option<Vec<u8>>>,
    g: DupGroup,
)
    requires
        is_entry_group(entries, candidates, digests, g),
        forall|t: int| 0 <= t < candidates.len() ==> shares_size(entries, #[trigger] candidates[t] as int),
    ensures
        forall|a: int| 0 <= a < g.members@.len() ==> shares_size(entries, #[trigger] g.members@[a] as int),
{
    assert forall|a: int| 0 <= a < g.members@.len() implies shares_size(entries, #[trigger] g.members@[a] as int) by {
        let k = g.members@[a] as int;
        lemma_entry_digest_found(candidates, digests, k, 0);
        let t = choose|t: int| 0 <= t < candidates.len() && candidates[t] as int == k && #[trigger] digest_view(digests[t])
            == entry_digest_from(candidates, digests, k, 0);
        assert(shares_size(entries, candidates[t] as int));
    }
}

fn keyed_digest(d: &Vec<u8>, size: u64) -> (res: Vec<u8>)
    ensures
        res@ == sized_key(d@, size),
{
    let mut res = copy_bytes(d);
    let tail = size_bytes_of(size);
    let mut i: usize = 0;
    while i < tail.len()
        invariant
            tail@ == size_bytes(size),
            i <= tail@.len(),
            res@ == d@ + tail@.take(i as int),
        decreases tail@.len() - i,
    {
        res.push(tail[i]);
        i = i + 1;
        assert(res@ =~= d@ + tail@.take(i as int));
    }
    assert(tail@.take(tail@.len() as int) =~= tail@);
    res
}

fn without_size_bytes(v: &Vec<u8>) -> (res: Vec<u8>)
    requires
        v@.len() >= 8,
    ensures
        res@ == v@.take(v@.len() - 8),
{
    let n = v.len() - 8;
    let mut res: Vec<u8> = Vec::new();
    let mut i: usize = 0;
    while i < n
        invariant
            n == v@.len() - 8,
            i <= n,
            res@ == v@.take(i as int),
        decreases n - i,
    {
        res.push(v[i]);
        i = i + 1;
        assert(res@ =~= v@.take(i as int));
    }
    res
}

proof fn lemma_sized_key_parts(d: Seq<u8>, size: u64)
    ensures
        sized_key(d, size).len() == d.len() + 8,
        sized_key(d, size).take(d.len() as int) == d,
{
    assert(size_bytes(size).len() == 8);
    assert(sized_key(d, size).take(d.len() as int) =~= d);
}

/// The groups of duplicates among `entries`: `candidates` are the entries
/// that were hashed (in increasing order), and `digests` their digests,
/// `None` where a file could not be read. Duplicates have one size and one
/// digest: one group for each size and digest that two or more entries
/// share, holding every entry of that size with that digest, ordered by
/// path. The groups are ordered by key (see `group_key`): by digest, then
/// by size, where the digests have one length.
pub fn collect_duplicates(
    entries: &Vec<FileEntry>,
    candidates: &Vec<usize>,
    digests: &Vec<Option<Vec<u8>>>,
) -> (groups: Vec<DupGroup>)
    requires
        candidates@.len() == digests@.len(),
        forall|a: int, b: int| 0 <= a < b < candidates@.len() ==> #[trigger] candidates@[a] < #[trigger] candidates@[b],
        forall|a: int| 0 <= a < candidates@.len() ==> #[trigger] candidates@[a] < entries@.len(),
    ensures
        forall|g: int| 0 <= g < groups@.len() ==> is_entry_group(entries@, candidates@, digests@, #[trigger] groups@[g]),
        forall|g1: int, g2: int|
            0 <= g1 < g2 < groups@.len() ==> bytes_lt(
                group_key(entries@, #[trigger] groups@[g1]),
                group_key(entries@, #[trigger] groups@[g2]),
            ),
        forall|k: usize|
            k < entries@.len() && #[trigger] shares_digest(entries@, candidates@, digests@, k as int) ==> exists|g: int|
                0 <= g < groups@.len() && #[trigger] groups@[g].members@.contains(k),
{
    let ghost cs = candidates@;
    let ghost ds = digests@;
    let ghost es = entries@;
    let ghost mut dgs: Seq<Seq<u8>> = Seq::empty();
    let mut hashed: Vec<HashedFile> = Vec::new();
    let mut origin: Vec<usize> = Vec::new();
    let mut i: usize = 0;
    while i < candidates.len()
        invariant
            cs == candidates@,
            ds == digests@,
            es == entries@,
            cs.len() == ds.len(),
            forall|a: int, b: int| 0 <= a < b < cs.len() ==> #[trigger] cs[a] < #[trigger] cs[b],
            forall|a: int| 0 <= a < cs.len() ==> #[trigger] cs[a] < es.len(),
            i <= cs.len(),
            hashed@.len() == origin@.len(),
            dgs.len() == origin@.len(),
            forall|a: int, b: int| 0 <= a < b < origin@.len() ==> #[trigger] origin@[a] < #[trigger] origin@[b],
            forall|j: int| 0 <= j < origin@.len() ==> #[trigger] origin@[j] < es.len(),
            i < cs.len() ==> forall|j: int| 0 <= j < origin@.len() ==> #[trigger] origin@[j] < cs[i as int],
            forall|j: int|
                0 <= j < origin@.len() ==> entry_digest(cs, ds, #[trigger] origin@[j] as int) == Some(dgs[j])
                    && hashed@[j].hash@ == sized_key(dgs[j], es[origin@[j] as int].size)
                    && hashed@[j].path@ == es[origin@[j] as int].path@,
            forall|t: int|
                0 <= t < i && #[trigger] ds[t] is Some ==> exists|j: int| 0 <= j < origin@.len() && origin@[j] == cs[t],
        decreases cs.len() - i,
    {
        let k = candidates[i];
        let ghost before_origin = origin@;
        proof {
            lemma_entry_digest_at(cs, ds, 0, i as int);
        }
        match &digests[i] {
            Some(d) => {
                let hash = keyed_digest(d, entries[k].size);
                let path = entries[k].path.clone();
                hashed.push(HashedFile { path, hash });
                origin.push(k);
                proof {
                    dgs = dgs.push(d@);
                    assert forall|t: int| 0 <= t < i + 1 && #[trigger] ds[t] is Some implies exists|j: int|
                        0 <= j < origin@.len() && origin@[j] == cs[t] by {
                        if t == i {
                            assert(origin@[origin@.len() - 1] == cs[t]);
                        } else {
                            let j = choose|j: int| 0 <= j < before_origin.len() && before_origin[j] == cs[t];
                            assert(origin@[j] == cs[t]);
                        }
                    }
                }
            },
            None => {},
        }
        proof {
            if i + 1 < cs.len() {
                assert(cs[i as int] < cs[i + 1]);
            }
        }
        i = i + 1;
    }
    let inner = group_duplicates(&hashed);
    let ghost hs = hashed@;
    let mut groups: Vec<DupGroup> = Vec::new();
    let mut g: usize = 0;
    while g < inner.len()
        invariant
            cs == candidates@,
            ds == digests@,
            es == entries@,
            hs == hashed@,
            cs.len() == ds.len(),
            hs.len() == origin@.len(),
            dgs.len() == origin@.len(),
            forall|a: int, b: int| 0 <= a < b < origin@.len() ==> #[trigger] origin@[a] < #[trigger] origin@[b],
            forall|j: int| 0 <= j < origin@.len() ==> #[trigger] origin@[j] < es.len(),
            forall|j: int|
                0 <= j < origin@.len() ==> entry_digest(cs, ds, #[trigger] origin@[j] as int) == Some(dgs[j])
                    && hs[j].hash@ == sized_key(dgs[j], es[origin@[j] as int].size)
                    && hs[j].path@ == es[origin@[j] as int].path@,
            forall|t: int|
                0 <= t < cs.len() && #[trigger] ds[t] is Some ==> exists|j: int| 0 <= j < origin@.len() && origin@[j] == cs[t],
            forall|gi: int| 0 <= gi < inner@.len() ==> is_group_of(hs, #[trigger] inner@[gi]),
            g <= inner@.len(),
            groups@.len() == g,
            forall|gi: int| 0 <= gi < g ==> #[trigger] group_key(es, groups@[gi]) == inner@[gi].hash@,
            forall|gi: int| 0 <= gi < g ==> #[trigger] groups@[gi].members@.len() == inner@[gi].members@.len(),
            forall|gi: int, b: int|
                0 <= gi < g && 0 <= b < groups@[gi].members@.len() ==> #[trigger] groups@[gi].members@[b]
                    == origin@[inner@[gi].members@[b] as int],
            forall|gi: int| 0 <= gi < g ==> is_entry_group(es, cs, ds, #[trigger] groups@[gi]),
        decreases inner@.len() - g,
    {
        let grp = &inner[g];
        let ghost ig = *grp;
        assert(is_group_of(hs, ig));
        let ghost m0 = ig.members@[0] as int;
        let ghost size0 = es[origin@[m0] as int].size;
        proof {
            lemma_sized_key_parts(dgs[m0], size0);
        }
        let mut members: Vec<usize> = Vec::new();
        let mut a: usize = 0;
        while a < grp.members.len()
            invariant
                ig == *grp,
                is_group_of(hs, ig),
                hs.len() == origin@.len(),
                a <= ig.members@.len(),
                members@.len() == a,
                forall|b: int| 0 <= b < a ==> #[trigger] members@[b] == origin@[ig.members@[b] as int],
            decreases ig.members@.len() - a,
        {
            members.push(origin[grp.members[a]]);
            a = a + 1;
        }
        let files = grp.files.clone();
        let hash = without_size_bytes(&grp.hash);
        let eg = DupGroup { hash, members, files };
        proof {
            assert(eg.hash@ == dgs[m0]);
            assert(group_size(es, eg) == size0);
            assert(group_key(es, eg) == ig.hash@);
            // Every member has the digest and the size of the first.
            assert forall|a: int| 0 <= a < eg.members@.len() implies dgs[ig.members@[a] as int] == dgs[m0]
                && es[origin@[ig.members@[a] as int] as int].size == size0 by {
                let m = ig.members@[a] as int;
                assert(hash_at(hs, m) == ig.hash@);
                lemma_sized_key_injective(dgs[m], es[origin@[m] as int].size, dgs[m0], size0);
            }
            assert(eg.files@.len() == ig.files@.len());
            assert forall|a: int| 0 <= a < eg.files@.len() implies #[trigger] eg.files@[a]@ == ig.files@[a]@ by {}
            assert forall|a: int| 0 <= a < eg.members@.len() implies {
                &&& #[trigger] eg.members@[a] < es.len()
                &&& entry_digest(cs, ds, eg.members@[a] as int) == Some(eg.hash@)
                &&& es[eg.members@[a] as int].size == group_size(es, eg)
                &&& eg.files@[a]@ == es[eg.members@[a] as int].path@
            } by {
                let m = ig.members@[a] as int;
                assert(eg.members@[a] == origin@[m]);
                assert(dgs[m] == dgs[m0]);
            }
            assert forall|k: usize|
                k < es.len() && entry_digest(cs, ds, k as int) == Some(eg.hash@) && es[k as int].size == group_size(
                    es,
                    eg,
                ) implies #[trigger] eg.members@.contains(k) by {
                lemma_entry_digest_found(cs, ds, k as int, 0);
                let t = choose|t: int|
                    0 <= t < cs.len() && cs[t] as int == k as int && #[trigger] digest_view(ds[t])
                        == entry_digest_from(cs, ds, k as int, 0);
                assert(ds[t] is Some);
                let j = choose|j: int| 0 <= j < origin@.len() && origin@[j] == cs[t];
                assert(entry_digest(cs, ds, origin@[j] as int) == Some(dgs[j]));
                assert(hs[j].hash@ == sized_key(dgs[m0], size0));
                assert(hash_at(hs, j) == ig.hash@);
                assert(ig.members@.contains(j as usize));
                let b = choose|b: int| 0 <= b < ig.members@.len() && ig.members@[b] == j as usize;
                assert(eg.members@[b] == k);
            }
            assert forall|a: int, b: int| 0 <= a < b < eg.members@.len() implies entry_listed_before(
                es,
                #[trigger] eg.members@[a] as int,
                #[trigger] eg.members@[b] as int,
            ) by {
                let ma = ig.members@[a] as int;
                let mb = ig.members@[b] as int;
                assert(listed_before(hs, ma, mb));
                assert(eg.members@[a] == origin@[ma] && eg.members@[b] == origin@[mb]);
                if ma < mb {
                    assert(origin@[ma] < origin@[mb]);
                }
            }
            assert(is_entry_group(es, cs, ds, eg));
        }
        let ghost old_groups = groups@;
        groups.push(eg);
        proof {
            assert forall|gi: int, b: int|
                0 <= gi < g + 1 && 0 <= b < groups@[gi].members@.len() implies #[trigger] groups@[gi].members@[b]
                == origin@[inner@[gi].members@[b] as int] by {
                if gi < g {
                    assert(groups@[gi] == old_groups[gi]);
                }
            }
            assert forall|gi: int| 0 <= gi < g + 1 implies #[trigger] group_key(es, groups@[gi]) == inner@[gi].hash@ by {
                if gi < g {
                    assert(groups@[gi] == old_groups[gi]);
                }
            }
            assert forall|gi: int| 0 <= gi < g + 1 implies is_entry_group(es, cs, ds, #[trigger] groups@[gi]) by {
                if gi < g {
                    assert(groups@[gi] == old_groups[gi]);
                }
            }
        }
        g = g + 1;
    }
    proof {
        assert forall|g1: int, g2: int| 0 <= g1 < g2 < groups@.len() implies bytes_lt(
            group_key(es, #[trigger] groups@[g1]),
            group_key(es, #[trigger] groups@[g2]),
        ) by {
            assert(bytes_lt(inner@[g1].hash@, inner@[g2].hash@));
        }
        assert forall|k: usize| k < es.len() && #[trigger] shares_digest(es, cs, ds, k as int) implies exists|g: int|
            0 <= g < groups@.len() && #[trigger] groups@[g].members@.contains(k) by {
            let w = choose|w: int|
                0 <= w < es.len() && w != k && #[trigger] entry_digest(cs, ds, w) == entry_digest(cs, ds, k as int)
                    && es[w].size == es[k as int].size;
            lemma_entry_digest_found(cs, ds, k as int, 0);
            lemma_entry_digest_found(cs, ds, w, 0);
            let tk = choose|t: int|
                0 <= t < cs.len() && cs[t] as int == k as int && #[trigger] digest_view(ds[t]) == entry_digest_from(cs, ds, k as int, 0);
            let tw = choose|t: int|
                0 <= t < cs.len() && cs[t] as int == w && #[trigger] digest_view(ds[t]) == entry_digest_from(cs, ds, w, 0);
            assert(ds[tk] is Some && ds[tw] is Some);
            let jk = choose|j: int| 0 <= j < origin@.len() && origin@[j] == cs[tk];
            let jw = choose|j: int| 0 <= j < origin@.len() && origin@[j] == cs[tw];
            assert(entry_digest(cs, ds, origin@[jk] as int) == Some(dgs[jk]));
            assert(entry_digest(cs, ds, origin@[jw] as int) == Some(dgs[jw]));
            assert(jk != jw);
            assert(hash_at(hs, jw) == hash_at(hs, jk));
            assert(shares_hash(hs, jk));
            assert((jk as usize) < hs.len());
            let gi = choose|gi: int| 0 <= gi < inner@.len() && #[trigger] inner@[gi].hash@ == hash_at(hs, jk as usize as int);
            assert(is_group_of(hs, inner@[gi]));
            assert(inner@[gi].members@.contains(jk as usize));
            let b = choose|b: int| 0 <= b < inner@[gi].members@.len() && inner@[gi].members@[b] == jk as usize;
            assert(groups@[gi].members@.len() == inner@[gi].members@.len());
            assert(origin@[jk] == k);
            assert(groups@[gi].members@[b] == origin@[inner@[gi].members@[b] as int]);
            assert(groups@[gi].members@[b] == k);
            assert(groups@[gi].members@.contains(k));
        }
    }
    groups
}

} // verus!
