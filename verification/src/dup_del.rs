//! Deciding which duplicate files to delete, and checking a pair once more
//! before a deletion.
use vstd::prelude::*;
use crate::path::{parse_path, parts_view, path_parts, parts_start_with};
use crate::enumerate::{FileHashType, hash_type_name};
use crate::error::Error;
use crate::order::{Rel, compare_bytes, bytes_lt, byte_order, strict_total, lemma_byte_order_strict_total, lemma_lex_irreflexive, lemma_lex_transitive};
use crate::dup::{HashedFile, DupGroup, group_duplicates, hash_at, is_group_of, listed_before, parts_at};

verus! {

/// The file `file` lies under one of the paths in `protected`: one of them
/// is a prefix of it, whole parts only.
pub open spec fn is_protected(protected: Seq<String>, file: Seq<char>) -> bool {
    exists|i: int| 0 <= i < protected.len() && #[trigger] path_parts(protected[i]@).is_prefix_of(path_parts(file))
}

/// Protection goes by whole path components: a file is protected exactly
/// when the components of some protected path begin its components, so
/// two paths with the same components are protected alike, whatever their
/// text (`d//keep/x` as `d/keep/x`), and a file whose component merely
/// begins with a protected name (`d/keeper` under `d/keep`) is not.
pub proof fn lemma_protection_by_components(protected: Seq<String>, f1: Seq<char>, f2: Seq<char>)
    ensures
        is_protected(protected, f1) <==> exists|i: int|
            0 <= i < protected.len() && #[trigger] path_parts(protected[i]@).is_prefix_of(path_parts(f1)),
        path_parts(f1) == path_parts(f2) ==> is_protected(protected, f1) == is_protected(protected, f2),
        (forall|i: int|
            #![trigger protected[i]]
            0 <= i < protected.len() ==> exists|j: int|
                0 <= j < path_parts(protected[i]@).len() && (j >= path_parts(f1).len() || #[trigger] path_parts(
                    protected[i]@,
                )[j] != path_parts(f1)[j])) ==> !is_protected(protected, f1),
{
    if is_protected(protected, f1) {
        let i = choose|i: int| 0 <= i < protected.len() && #[trigger] path_parts(protected[i]@).is_prefix_of(path_parts(f1));
        let pp = path_parts(protected[i]@);
        let fp = path_parts(f1);
        assert(pp.len() <= fp.len());
        assert forall|j: int| 0 <= j < pp.len() implies pp[j] == fp[j] by {
            assert(fp.subrange(0, pp.len() as int)[j] == fp[j]);
        }
    }
}

/// Whether the file `file` lies under one of the paths in `protected_list`,
/// as std's `Path::starts_with` compares paths.
pub fn is_protectd(protected_list: &Vec<String>, file: &str) -> (res: bool)
    ensures
        res == is_protected(protected_list@, file@),
{
    let file_parts = parse_path(file);
    let mut i: usize = 0;
    while i < protected_list.len()
        invariant
            i <= protected_list@.len(),
            parts_view(file_parts@) == path_parts(file@),
            forall|j: int| 0 <= j < i ==> !#[trigger] path_parts(protected_list@[j]@).is_prefix_of(path_parts(file@)),
        decreases protected_list@.len() - i,
    {
        let base = parse_path(protected_list[i].as_str());
        if parts_start_with(&file_parts, &base) {
            return true;
        }
        i = i + 1;
    }
    false
}

/// The positions below `n` of the files whose protection is `want`, in
/// increasing order.
pub open spec fn positions(files: Seq<String>, protected: Seq<String>, n: nat, want: bool) -> Seq<int>
    decreases n,
{
    if n == 0 {
        Seq::empty()
    } else {
        let prev = positions(files, protected, (n - 1) as nat, want);
        if is_protected(protected, files[n - 1]@) == want {
            prev.push(n - 1)
        } else {
            prev
        }
    }
}

/// A deletion: the file at `delete` goes, the file at `keep` stays and is
/// what it is checked against.
#[derive(Clone, Copy, Debug, PartialEq, Eq, Structural)]
pub struct Deletion {
    pub keep: usize,
    pub delete: usize,
}

/// The deletions for one group of duplicates: where every file is
/// protected, none; where none is, all files but the first, each checked
/// against the first; otherwise every unprotected file, each checked against
/// the first protected one.
pub open spec fn deletion_plan(files: Seq<String>, protected: Seq<String>) -> Seq<(int, int)> {
    let p = positions(files, protected, files.len(), true);
    let u = positions(files, protected, files.len(), false);
    if u.len() == 0 {
        Seq::empty()
    } else if p.len() == 0 {
        Seq::new((u.len() - 1) as nat, |i: int| (u[0], u[i + 1]))
    } else {
        Seq::new(u.len(), |i: int| (p[0], u[i]))
    }
}

/// The positions of the files of a protection are increasing, in range, and
/// complete.
pub proof fn lemma_positions(files: Seq<String>, protected: Seq<String>, n: nat, want: bool)
    requires
        n <= files.len(),
    ensures
        forall|a: int, b: int|
            0 <= a < b < positions(files, protected, n, want).len() ==> #[trigger] positions(
                files,
                protected,
                n,
                want,
            )[a] < #[trigger] positions(files, protected, n, want)[b],
        forall|a: int|
            0 <= a < positions(files, protected, n, want).len() ==> {
                &&& 0 <= #[trigger] positions(files, protected, n, want)[a] < n
                &&& is_protected(protected, files[positions(files, protected, n, want)[a]]@) == want
            },
        forall|k: int|
            0 <= k < n && is_protected(protected, files[k]@) == want ==> #[trigger] positions(
                files,
                protected,
                n,
                want,
            ).contains(k),
    decreases n,
{
    if n > 0 {
        lemma_positions(files, protected, (n - 1) as nat, want);
        let prev = positions(files, protected, (n - 1) as nat, want);
        let cur = positions(files, protected, n, want);
        assert forall|k: int| 0 <= k < n && is_protected(protected, files[k]@) == want implies #[trigger] cur.contains(k) by {
            if k < n - 1 {
                assert(prev.contains(k));
                let q = choose|q: int| 0 <= q < prev.len() && prev[q] == k;
                assert(cur[q] == k);
            } else {
                assert(cur[cur.len() - 1] == k);
            }
        }
    }
}

/// The deletions for one group of duplicates `files`, given the protected
/// paths: see `deletion_plan`.
pub fn plan_deletions(files: &Vec<String>, protected_list: &Vec<String>) -> (res: Vec<Deletion>)
    ensures
        res@.len() == deletion_plan(files@, protected_list@).len(),
        forall|i: int|
            0 <= i < res@.len() ==> (#[trigger] res@[i].keep as int, res@[i].delete as int) == deletion_plan(
                files@,
                protected_list@,
            )[i],
{
    let mut protected: Vec<usize> = Vec::new();
    let mut not_protected: Vec<usize> = Vec::new();
    let mut k: usize = 0;
    while k < files.len()
        invariant
            k <= files@.len(),
            protected@.len() == positions(files@, protected_list@, k as nat, true).len(),
            forall|a: int| 0 <= a < protected@.len() ==> #[trigger] protected@[a] as int == positions(
                files@,
                protected_list@,
                k as nat,
                true,
            )[a],
            not_protected@.len() == positions(files@, protected_list@, k as nat, false).len(),
            forall|a: int| 0 <= a < not_protected@.len() ==> #[trigger] not_protected@[a] as int == positions(
                files@,
                protected_list@,
                k as nat,
                false,
            )[a],
        decreases files@.len() - k,
    {
        if is_protectd(protected_list, files[k].as_str()) {
            protected.push(k);
        } else {
            not_protected.push(k);
        }
        k = k + 1;
    }
    let ghost p = positions(files@, protected_list@, files@.len(), true);
    let ghost u = positions(files@, protected_list@, files@.len(), false);
    let mut res: Vec<Deletion> = Vec::new();
    if not_protected.len() == 0 {
        return res;
    }
    if protected.len() == 0 {
        let mut i: usize = 1;
        while i < not_protected.len()
            invariant
                u.len() == not_protected@.len(),
                p.len() == 0,
                u.len() > 0,
                forall|a: int| 0 <= a < not_protected@.len() ==> #[trigger] not_protected@[a] as int == u[a],
                1 <= i <= not_protected@.len(),
                res@.len() == i - 1,
                forall|j: int|
                    0 <= j < res@.len() ==> (#[trigger] res@[j].keep as int, res@[j].delete as int) == (u[0], u[j + 1]),
            decreases not_protected@.len() - i,
        {
            res.push(Deletion { keep: not_protected[0], delete: not_protected[i] });
            i = i + 1;
        }
    } else {
        let mut i: usize = 0;
        while i < not_protected.len()
            invariant
                u.len() == not_protected@.len(),
                p.len() == protected@.len(),
                p.len() > 0,
                forall|a: int| 0 <= a < not_protected@.len() ==> #[trigger] not_protected@[a] as int == u[a],
                forall|a: int| 0 <= a < protected@.len() ==> #[trigger] protected@[a] as int == p[a],
                0 <= i <= not_protected@.len(),
                res@.len() == i,
                forall|j: int|
                    0 <= j < res@.len() ==> (#[trigger] res@[j].keep as int, res@[j].delete as int) == (p[0], u[j]),
            decreases not_protected@.len() - i,
        {
            res.push(Deletion { keep: protected[0], delete: not_protected[i] });
            i = i + 1;
        }
    }
    res
}

/// No deletion removes a protected file, no file that a deletion keeps is
/// ever deleted, and no file is deleted twice.
pub proof fn lemma_deletion_plan_safe(files: Seq<String>, protected: Seq<String>)
    ensures
        forall|i: int|
            0 <= i < deletion_plan(files, protected).len() ==> {
                &&& 0 <= #[trigger] deletion_plan(files, protected)[i].0 < files.len()
                &&& 0 <= deletion_plan(files, protected)[i].1 < files.len()
                &&& !is_protected(protected, files[deletion_plan(files, protected)[i].1]@)
            },
        forall|i: int, j: int|
            0 <= i < deletion_plan(files, protected).len() && 0 <= j < deletion_plan(files, protected).len()
                ==> #[trigger] deletion_plan(files, protected)[i].0 != #[trigger] deletion_plan(files, protected)[j].1,
        forall|i: int, j: int|
            0 <= i < j < deletion_plan(files, protected).len() ==> #[trigger] deletion_plan(files, protected)[i].1
                != #[trigger] deletion_plan(files, protected)[j].1,
{
    lemma_positions(files, protected, files.len(), true);
    lemma_positions(files, protected, files.len(), false);
}

/// No deletion of the plan removes the file at `k`.
pub open spec fn never_deleted(files: Seq<String>, protected: Seq<String>, k: int) -> bool {
    forall|i: int| 0 <= i < deletion_plan(files, protected).len() ==> #[trigger] deletion_plan(files, protected)[i].1 != k
}

/// A group of duplicates never loses all of its files: some file is never
/// deleted.
pub proof fn lemma_deletion_plan_keeps_one(files: Seq<String>, protected: Seq<String>)
    requires
        files.len() > 0,
    ensures
        exists|k: int| 0 <= k < files.len() && #[trigger] never_deleted(files, protected, k),
{
    lemma_deletion_plan_safe(files, protected);
    let plan = deletion_plan(files, protected);
    if plan.len() > 0 {
        let k = plan[0].0;
        assert(forall|i: int| 0 <= i < plan.len() ==> #[trigger] plan[i].1 != k);
        assert(never_deleted(files, protected, k));
    } else {
        assert(never_deleted(files, protected, 0));
    }
}

/// Every unprotected file is deleted, except, where no file of the group is
/// protected, the first file.
pub proof fn lemma_deletion_plan_complete(files: Seq<String>, protected: Seq<String>, k: int)
    requires
        0 <= k < files.len(),
        !is_protected(protected, files[k]@),
        k > 0 || exists|q: int| 0 <= q < files.len() && #[trigger] is_protected(protected, files[q]@),
    ensures
        exists|i: int| 0 <= i < deletion_plan(files, protected).len() && #[trigger] deletion_plan(files, protected)[i].1 == k,
{
    lemma_positions(files, protected, files.len(), true);
    lemma_positions(files, protected, files.len(), false);
    let p = positions(files, protected, files.len(), true);
    let u = positions(files, protected, files.len(), false);
    let plan = deletion_plan(files, protected);
    assert(u.contains(k));
    let q = choose|q: int| 0 <= q < u.len() && u[q] == k;
    if exists|w: int| 0 <= w < files.len() && #[trigger] is_protected(protected, files[w]@) {
        let w = choose|w: int| 0 <= w < files.len() && #[trigger] is_protected(protected, files[w]@);
        assert(p.contains(w));
        assert(plan[q].1 == k);
    } else {
        assert(k > 0);
        assert(!is_protected(protected, files[0]@));
        assert(u.contains(0));
        let q0 = choose|q0: int| 0 <= q0 < u.len() && u[q0] == 0;
        if q0 > 0 {
            assert(u[0] < u[q0]);
        }
        assert(u[0] == 0);
        assert(p.len() == 0) by {
            if p.len() > 0 {
                assert(is_protected(protected, files[p[0]]@));
            }
        }
        assert(q >= 1);
        assert(plan[q - 1].1 == k);
    }
}

/// Exactly these files of a group stay: where some file is protected, the
/// protected ones; where none is, the first.
pub proof fn lemma_deletion_plan_kept(files: Seq<String>, protected: Seq<String>, k: int)
    requires
        0 <= k < files.len(),
    ensures
        never_deleted(files, protected, k) <==> (if exists|q: int|
            0 <= q < files.len() && #[trigger] is_protected(protected, files[q]@) {
            is_protected(protected, files[k]@)
        } else {
            k == 0
        }),
{
    lemma_deletion_plan_safe(files, protected);
    lemma_positions(files, protected, files.len(), true);
    lemma_positions(files, protected, files.len(), false);
    let plan = deletion_plan(files, protected);
    let some_protected = exists|q: int| 0 <= q < files.len() && #[trigger] is_protected(protected, files[q]@);
    if !is_protected(protected, files[k]@) && (k > 0 || some_protected) {
        lemma_deletion_plan_complete(files, protected, k);
        let i = choose|i: int| 0 <= i < plan.len() && #[trigger] plan[i].1 == k;
        assert(!never_deleted(files, protected, k));
    } else if is_protected(protected, files[k]@) {
        assert(never_deleted(files, protected, k));
    } else {
        assert(k == 0 && !some_protected);
        let u = positions(files, protected, files.len(), false);
        let p = positions(files, protected, files.len(), true);
        assert(p.len() == 0) by {
            if p.len() > 0 {
                assert(is_protected(protected, files[p[0]]@));
            }
        }
        assert(u.contains(0));
        let q0 = choose|q0: int| 0 <= q0 < u.len() && u[q0] == 0;
        if q0 > 0 {
            assert(u[0] < u[q0]);
        }
        assert forall|i: int| 0 <= i < plan.len() implies #[trigger] plan[i].1 != k by {
            assert(plan[i].1 == u[i + 1]);
            assert(u[0] < u[i + 1]);
        }
    }
}

/// The message of a pair that one digest found equal and the check before
/// deletion found different.
pub open spec fn mismatch_message(
    exist: Seq<char>,
    to_delete: Seq<char>,
    digest: FileHashType,
    digest2: FileHashType,
) -> Seq<char> {
    "file "@ + exist + " and "@ + to_delete + " are the same in "@ + hash_type_name(digest)
        + ", but different in "@ + hash_type_name(digest2)
}

/// The check before the file shown as `to_delete` is deleted in favour of
/// the file shown as `exist`: `Ok` where the two check digests agree, else
/// an error that says the files differ under `digest2`.
pub fn check_before_delete(
    exist_check: &[u8],
    delete_check: &[u8],
    exist: &str,
    to_delete: &str,
    digest: FileHashType,
    digest2: FileHashType,
) -> (res: Result<(), Error>)
    ensures
        res is Ok <==> exist_check@ == delete_check@,
        res matches Err(e) ==> (e matches Error::CustomError(m) && m@ == mismatch_message(
            exist@,
            to_delete@,
            digest,
            digest2,
        )),
{
    if compare_bytes(exist_check, delete_check) == Rel::Equal {
        Ok(())
    } else {
        let mut m = String::from_str("file ");
        m.append(exist);
        m.append(" and ");
        m.append(to_delete);
        m.append(" are the same in ");
        let n1 = digest.name();
        m.append(n1.as_str());
        m.append(", but different in ");
        let n2 = digest2.name();
        m.append(n2.as_str());
        Err(Error::CustomError(m))
    }
}

/// The error of a deletion that the file system refused.
pub fn deletion_failed(to_delete: &str, reason: &str) -> (res: Error)
    ensures
        res matches Error::CustomError(m) && m@ == "delete file "@ + to_delete@ + " failed: "@ + reason@,
{
    let mut m = String::from_str("delete file ");
    m.append(to_delete);
    m.append(" failed: ");
    m.append(reason);
    Error::CustomError(m)
}

/// The first position at or after `i` of a file with digest `h`; the
/// number of files where there is none.
pub open spec fn first_with_hash(hashes: Seq<Seq<u8>>, h: Seq<u8>, i: int) -> int
    decreases hashes.len() - i,
{
    if i >= hashes.len() || i < 0 {
        hashes.len() as int
    } else if hashes[i] == h {
        i
    } else {
        first_with_hash(hashes, h, i + 1)
    }
}

/// The deletions that keep, of each digest, the file seen first: every
/// unprotected file below position `n` whose digest an earlier file has is
/// deleted in favour of the earliest such file, in the order the files were
/// seen; protected files stay.
pub open spec fn first_seen_plan(files: Seq<HashedFile>, protected: Seq<String>, n: nat) -> Seq<(int, int)>
    decreases n,
{
    if n == 0 {
        Seq::empty()
    } else {
        let prev = first_seen_plan(files, protected, (n - 1) as nat);
        let k = n - 1;
        let first = first_with_hash(hashes_of(files), files[k].hash@, 0);
        if first < k && !is_protected(protected, files[k].path@) {
            prev.push((first, k))
        } else {
            prev
        }
    }
}

proof fn lemma_first_with_hash(hashes: Seq<Seq<u8>>, h: Seq<u8>, i: int, j: int)
    requires
        0 <= i <= j < hashes.len(),
        hashes[j] == h,
        forall|x: int| i <= x < j ==> hashes[x] != h,
    ensures
        first_with_hash(hashes, h, i) == j,
    decreases j - i,
{
    if i < j {
        lemma_first_with_hash(hashes, h, i + 1, j);
    }
}

/// The digests of the hashed files.
pub open spec fn hashes_of(files: Seq<HashedFile>) -> Seq<Seq<u8>> {
    Seq::new(files.len(), |k: int| files[k].hash@)
}

/// The position of the group whose digest is `h`, among groups in
/// increasing order of digest; `None` where no group has it.
pub fn find_group(groups: &Vec<DupGroup>, h: &[u8]) -> (res: Option<usize>)
    requires
        forall|g1: int, g2: int|
            0 <= g1 < g2 < groups@.len() ==> bytes_lt(#[trigger] groups@[g1].hash@, #[trigger] groups@[g2].hash@),
    ensures
        match res {
            Some(gi) => gi < groups@.len() && groups@[gi as int].hash@ == h@,
            None => forall|gi: int| 0 <= gi < groups@.len() ==> #[trigger] groups@[gi].hash@ != h@,
        },
{
    proof {
        lemma_byte_order_strict_total();
    }
    let mut lo: usize = 0;
    let mut hi: usize = groups.len();
    while lo < hi
        invariant
            0 <= lo <= hi <= groups@.len(),
            strict_total(byte_order()),
            forall|g1: int, g2: int|
                0 <= g1 < g2 < groups@.len() ==> bytes_lt(#[trigger] groups@[g1].hash@, #[trigger] groups@[g2].hash@),
            forall|gi: int| 0 <= gi < lo ==> bytes_lt(#[trigger] groups@[gi].hash@, h@),
            forall|gi: int| hi <= gi < groups@.len() ==> bytes_lt(h@, #[trigger] groups@[gi].hash@),
        decreases hi - lo,
    {
        let mid = lo + (hi - lo) / 2;
        match compare_bytes(groups[mid].hash.as_slice(), h) {
            Rel::Equal => {
                return Some(mid);
            },
            Rel::Less => {
                assert forall|gi: int| 0 <= gi < mid + 1 implies bytes_lt(#[trigger] groups@[gi].hash@, h@) by {
                    if gi < mid {
                        lemma_lex_transitive(groups@[gi].hash@, groups@[mid as int].hash@, h@, byte_order());
                    }
                }
                lo = mid + 1;
            },
            Rel::Greater => {
                assert forall|gi: int| mid <= gi < groups@.len() implies bytes_lt(h@, #[trigger] groups@[gi].hash@) by {
                    if gi > mid {
                        lemma_lex_transitive(h@, groups@[mid as int].hash@, groups@[gi].hash@, byte_order());
                    }
                }
                hi = mid;
            },
        }
    }
    assert forall|gi: int| 0 <= gi < groups@.len() implies #[trigger] groups@[gi].hash@ != h@ by {
        lemma_lex_irreflexive(h@, byte_order());
    }
    None
}

/// The deletions that keep, of each digest, the file seen first, and every
/// file under the protected paths (see `first_seen_plan`); `files` are in
/// the order they were seen.
pub fn plan_first_seen(files: &Vec<HashedFile>, protected_list: &Vec<String>) -> (res: Vec<Deletion>)
    ensures
        res@.len() == first_seen_plan(files@, protected_list@, files@.len()).len(),
        forall|i: int|
            0 <= i < res@.len() ==> (#[trigger] res@[i].keep as int, res@[i].delete as int)
                == first_seen_plan(files@, protected_list@, files@.len())[i],
{
    let n = files.len();
    let ghost hs = hashes_of(files@);
    // The same digests, all under one empty path, so that each group lists
    // its files by position.
    let mut unnamed: Vec<HashedFile> = Vec::new();
    let mut k: usize = 0;
    while k < n
        invariant
            n == files@.len(),
            k <= n,
            unnamed@.len() == k,
            forall|j: int| 0 <= j < k ==> #[trigger] unnamed@[j].hash@ == files@[j].hash@ && unnamed@[j].path@
                == Seq::<char>::empty(),
        decreases n - k,
    {
        let hash = files[k].hash.clone();
        assert(hash@ =~= files@[k as int].hash@);
        unnamed.push(HashedFile { path: String::new(), hash });
        k = k + 1;
    }
    let groups = group_duplicates(&unnamed);
    let ghost us = unnamed@;
    assert forall|j: int| 0 <= j < n implies #[trigger] hash_at(us, j) == hs[j] by {}
    assert forall|j: int| 0 <= j < n implies #[trigger] us[j].path@ == Seq::<char>::empty() by {
        assert(us[j].hash@ == files@[j].hash@);
    }
    let mut res: Vec<Deletion> = Vec::new();
    let mut k: usize = 0;
    while k < n
        invariant
            n == files@.len(),
            n == us.len(),
            hs == hashes_of(files@),
            k <= n,
            forall|j: int| 0 <= j < n ==> #[trigger] hash_at(us, j) == hs[j],
            forall|j: int| 0 <= j < n ==> #[trigger] us[j].path@ == Seq::<char>::empty(),
            forall|gi: int| 0 <= gi < groups@.len() ==> is_group_of(us, #[trigger] groups@[gi]),
            forall|g1: int, g2: int|
                0 <= g1 < g2 < groups@.len() ==> bytes_lt(#[trigger] groups@[g1].hash@, #[trigger] groups@[g2].hash@),
            forall|j: usize|
                j < us.len() && #[trigger] crate::dup::shares_hash(us, j as int) ==> exists|gi: int|
                    0 <= gi < groups@.len() && #[trigger] groups@[gi].hash@ == hash_at(us, j as int),
            res@.len() == first_seen_plan(files@, protected_list@, k as nat).len(),
            forall|i: int|
                0 <= i < res@.len() ==> (#[trigger] res@[i].keep as int, res@[i].delete as int)
                    == first_seen_plan(files@, protected_list@, k as nat)[i],
        decreases n - k,
    {
        let ghost h = hs[k as int];
        let found = find_group(&groups, files[k].hash.as_slice());
        let lead: usize = match found {
            Some(gi) => groups[gi].members[0],
            None => k,
        };
        proof {
            match found {
                Some(gi) => {
                    let grp = groups@[gi as int];
                    assert(is_group_of(us, grp));
                    assert(grp.members@[0] < n);
                    assert forall|x: int| 0 <= x < lead implies hs[x] != h by {
                        if hs[x] == h {
                            assert(hash_at(us, x) == grp.hash@);
                            assert(grp.members@.contains(x as usize));
                            let b = choose|b: int| 0 <= b < grp.members@.len() && grp.members@[b] == x as usize;
                            assert(b != 0);
                            assert(listed_before(us, grp.members@[0] as int, grp.members@[b] as int));
                            assert(parts_at(us, lead as int) == parts_at(us, x));
                            crate::order::lemma_lex_irreflexive(parts_at(us, x), crate::path::part_order());
                        }
                    }
                    lemma_first_with_hash(hs, h, 0, lead as int);
                },
                None => {
                    assert forall|x: int| 0 <= x < k implies hs[x] != h by {
                        if hs[x] == h {
                            assert(hash_at(us, x) == hash_at(us, k as int));
                            assert(crate::dup::shares_hash(us, k as int));
                        }
                    }
                    lemma_first_with_hash(hs, h, 0, k as int);
                },
            }
        }
        if lead < k && !is_protectd(protected_list, files[k].path.as_str()) {
            res.push(Deletion { keep: lead, delete: k });
        }
        k = k + 1;
    }
    res
}

/// Of each digest, the file seen first is never deleted, nor is a
/// protected file; every later unprotected file with that digest is
/// deleted in favour of the first.
pub proof fn lemma_first_seen_plan(files: Seq<HashedFile>, protected: Seq<String>, n: nat)
    requires
        n <= files.len(),
    ensures
        forall|i: int|
            0 <= i < first_seen_plan(files, protected, n).len() ==> {
                let (keep, del) = #[trigger] first_seen_plan(files, protected, n)[i];
                &&& 0 <= keep < del < n
                &&& files[keep].hash@ == files[del].hash@
                &&& keep == first_with_hash(hashes_of(files), files[del].hash@, 0)
                &&& !is_protected(protected, files[del].path@)
            },
        forall|k: int|
            0 <= k < n && !is_protected(protected, files[k].path@) && first_with_hash(
                hashes_of(files),
                files[k].hash@,
                0,
            ) < k ==> exists|i: int|
                0 <= i < first_seen_plan(files, protected, n).len() && #[trigger] first_seen_plan(
                    files,
                    protected,
                    n,
                )[i] == (first_with_hash(hashes_of(files), files[k].hash@, 0), k),
    decreases n,
{
    if n > 0 {
        lemma_first_seen_plan(files, protected, (n - 1) as nat);
        let hs = hashes_of(files);
        let k = n - 1;
        lemma_first_with_hash_found(hs, files[k].hash@, 0, k);
        let prev = first_seen_plan(files, protected, (n - 1) as nat);
        let cur = first_seen_plan(files, protected, n);
        assert forall|i: int| 0 <= i < prev.len() implies #[trigger] cur[i] == prev[i] by {}
        assert forall|j: int|
            0 <= j < n && !is_protected(protected, files[j].path@) && first_with_hash(hs, files[j].hash@, 0) < j
            implies exists|i: int| 0 <= i < cur.len() && #[trigger] cur[i] == (first_with_hash(hs, files[j].hash@, 0), j) by {
            if j < k {
                let i = choose|i: int| 0 <= i < prev.len() && #[trigger] prev[i] == (first_with_hash(hs, files[j].hash@, 0), j);
                assert(cur[i] == prev[i]);
            } else {
                assert(cur[prev.len() as int] == (first_with_hash(hs, files[j].hash@, 0), j));
            }
        }
    }
}

proof fn lemma_first_with_hash_found(hashes: Seq<Seq<u8>>, h: Seq<u8>, i: int, k: int)
    requires
        0 <= i <= k < hashes.len(),
        hashes[k] == h,
    ensures
        i <= first_with_hash(hashes, h, i) <= k,
        hashes[first_with_hash(hashes, h, i)] == h,
    decreases k - i,
{
    if hashes[i] != h {
        lemma_first_with_hash_found(hashes, h, i + 1, k);
    }
}

} // verus!
