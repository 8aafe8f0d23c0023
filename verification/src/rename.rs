//! The new names of renamed files: by digest or by sequence number.
use vstd::prelude::*;
use crate::command::{NamingRuleArgs, RenameArgs, SeqSortArgs};
use crate::digest::{digest_hex, hex_digit, hex_text, lemma_hex_text_len};
use crate::enumerate::{FileHashType, hash_type_name};
use crate::naming::{zero_pad, zero_padded, lemma_zero_padded_digits, lemma_zero_padded_injective};
use crate::path::{extension_of, file_extension, parse_path};
use crate::sorting::{SortKey, KeyValue, comes_before, keys_view, is_sorted_order, lemma_desc_reverses_asc, sort_order};
use crate::text::{is_hidden, lower_text, str_eq, to_ascii_lowercase, to_ascii_uppercase, upper_text};

verus! {

/// How files are renamed.
#[derive(Clone, Copy, Debug, PartialEq, Eq, Structural)]
pub enum Naming {
    /// By the digest of their contents.
    Digest(FileHashType),
    /// By their number in a chosen order.
    Sequence,
}

/// The rule that the flags choose: the first set among the digests (MD5,
/// SHA-1, SHA-256, SHA3-224, SHA3-256, SHA3-384, SHA3-512), else sequence;
/// MD5 where no flag is set.
pub open spec fn naming_of(r: NamingRuleArgs) -> Naming {
    if r.md5 {
        Naming::Digest(FileHashType::MD5)
    } else if r.sha1 {
        Naming::Digest(FileHashType::SHA1)
    } else if r.sha256 {
        Naming::Digest(FileHashType::SHA256)
    } else if r.sha3_224 {
        Naming::Digest(FileHashType::SHA3_224)
    } else if r.sha3_256 {
        Naming::Digest(FileHashType::SHA3_256)
    } else if r.sha3_384 {
        Naming::Digest(FileHashType::SHA3_384)
    } else if r.sha3_512 {
        Naming::Digest(FileHashType::SHA3_512)
    } else if r.sequence {
        Naming::Sequence
    } else {
        Naming::Digest(FileHashType::MD5)
    }
}

/// The text of an optional argument; empty where absent.
pub open spec fn opt_text(o: Option<String>) -> Seq<char> {
    match o {
        Some(s) => s@,
        None => Seq::empty(),
    }
}

/// The extension of a file renamed by digest: made upper case, then lower
/// case, as the flags ask.
pub open spec fn digest_ext(args: RenameArgs, ext: Seq<char>) -> Seq<char> {
    let e = if args.upper_ext {
        upper_text(ext)
    } else {
        ext
    };
    if args.low_ext {
        lower_text(e)
    } else {
        e
    }
}

/// The extension of a file renamed by sequence: upper case, else lower
/// case, else as it is.
pub open spec fn sequence_ext(args: RenameArgs, ext: Seq<char>) -> Seq<char> {
    if args.upper_ext {
        upper_text(ext)
    } else if args.low_ext {
        lower_text(ext)
    } else {
        ext
    }
}

/// The new name of a file named `file_name` with digest `hash`: the prefix,
/// the digest in hexadecimal and the suffix; where the file has an
/// extension, then `.` and the extension.
pub open spec fn digest_name(args: RenameArgs, hash: Seq<u8>, file_name: Seq<char>) -> Seq<char> {
    let stem = opt_text(args.prefix) + hex_text(hash, args.upper) + opt_text(args.suffix);
    match extension_of(file_name) {
        Some(ext) => stem + "."@ + digest_ext(args, ext),
        None => stem,
    }
}

/// The new name of a file named `file_name` that is number `number` in
/// order: the prefix, the number zero-padded to the chosen width, and the
/// suffix; where the file has a non-empty extension, then `.` and the
/// extension.
pub open spec fn sequence_name(args: RenameArgs, number: nat, file_name: Seq<char>) -> Seq<char> {
    let stem = opt_text(args.prefix) + zero_padded(number, args.seq_len as nat) + opt_text(args.suffix);
    match extension_of(file_name) {
        Some(ext) => if ext.len() > 0 {
            stem + "."@ + sequence_ext(args, ext)
        } else {
            stem
        },
        None => stem,
    }
}

fn opt_str(o: &Option<String>) -> (res: &str)
    ensures
        res@ == opt_text(*o),
{
    match o {
        Some(s) => s.as_str(),
        None => {
            proof {
                reveal_strlit("");
            }
            ""
        },
    }
}

/// Whether renaming leaves alone the file or directory named `name`: it is
/// hidden (starts with `.`), or it is one of the names to ignore.
pub open spec fn is_skipped(args: RenameArgs, name: Seq<char>) -> bool {
    ||| (name.len() > 0 && name[0] == '.')
    ||| exists|i: int| 0 <= i < args.ignore@.len() && #[trigger] args.ignore@[i]@ == name
}

impl RenameArgs {
    /// The rule by which files are renamed: the one the flags choose, MD5
    /// where none is set.
    pub fn naming(&self) -> (res: Naming)
        ensures
            res == naming_of(self.naming_rule),
    {
        let r = &self.naming_rule;
        if r.md5 {
            Naming::Digest(FileHashType::MD5)
        } else if r.sha1 {
            Naming::Digest(FileHashType::SHA1)
        } else if r.sha256 {
            Naming::Digest(FileHashType::SHA256)
        } else if r.sha3_224 {
            Naming::Digest(FileHashType::SHA3_224)
        } else if r.sha3_256 {
            Naming::Digest(FileHashType::SHA3_256)
        } else if r.sha3_384 {
            Naming::Digest(FileHashType::SHA3_384)
        } else if r.sha3_512 {
            Naming::Digest(FileHashType::SHA3_512)
        } else if r.sequence {
            Naming::Sequence
        } else {
            Naming::Digest(FileHashType::MD5)
        }
    }

    /// Whether renaming leaves alone the file or directory named `name`
    /// (see `is_skipped`).
    pub fn skips(&self, name: &str) -> (res: bool)
        ensures
            res == is_skipped(*self, name@),
    {
        if is_hidden(name) {
            return true;
        }
        let mut i: usize = 0;
        while i < self.ignore.len()
            invariant
                i <= self.ignore@.len(),
                forall|j: int| 0 <= j < i ==> #[trigger] self.ignore@[j]@ != name@,
            decreases self.ignore@.len() - i,
        {
            if str_eq(self.ignore[i].as_str(), name) {
                return true;
            }
            i = i + 1;
        }
        false
    }

    /// The new name of the file named `file_name` whose digest is `hash`.
    pub fn digest_file_name(&self, hash: &[u8], file_name: &str) -> (res: String)
        ensures
            res@ == digest_name(*self, hash@, file_name@),
    {
        let new_name = digest_hex(hash, self.upper);
        let mut res = String::from_str(opt_str(&self.prefix));
        res.append(new_name.as_str());
        res.append(opt_str(&self.suffix));
        match file_extension(file_name) {
            Some(ext) => {
                let mut ext_name = ext;
                if self.upper_ext {
                    ext_name = to_ascii_uppercase(ext_name.as_str());
                }
                if self.low_ext {
                    ext_name = to_ascii_lowercase(ext_name.as_str());
                }
                res.append(".");
                res.append(ext_name.as_str());
                res
            },
            None => res,
        }
    }

    /// The new name of the file named `file_name` that is number `number`
    /// in order.
    pub fn sequence_file_name(&self, number: usize, file_name: &str) -> (res: String)
        ensures
            res@ == sequence_name(*self, number as nat, file_name@),
    {
        let new_name = zero_pad(number, self.seq_len);
        let mut res = String::from_str(opt_str(&self.prefix));
        res.append(new_name.as_str());
        res.append(opt_str(&self.suffix));
        match file_extension(file_name) {
            Some(ext) => {
                if ext.unicode_len() == 0 {
                    return res;
                }
                let ext_name = if self.upper_ext {
                    to_ascii_uppercase(ext.as_str())
                } else if self.low_ext {
                    to_ascii_lowercase(ext.as_str())
                } else {
                    ext
                };
                res.append(".");
                res.append(ext_name.as_str());
                res
            },
            None => res,
        }
    }

    /// The new names of files renamed by sequence, in order: the file at
    /// `order[i]` is number `i + 1`.
    pub fn sequence_file_names(&self, file_names: &Vec<String>, order: &Vec<usize>) -> (res: Vec<String>)
        requires
            forall|i: int| 0 <= i < order@.len() ==> #[trigger] order@[i] < file_names@.len(),
            order@.len() < usize::MAX,
        ensures
            res@.len() == order@.len(),
            forall|i: int|
                0 <= i < order@.len() ==> #[trigger] res@[i]@ == sequence_name(
                    *self,
                    (i + 1) as nat,
                    file_names@[order@[i] as int]@,
                ),
    {
        let mut res: Vec<String> = Vec::new();
        let mut i: usize = 0;
        while i < order.len()
            invariant
                forall|i: int| 0 <= i < order@.len() ==> #[trigger] order@[i] < file_names@.len(),
                order@.len() < usize::MAX,
                i <= order@.len(),
                res@.len() == i,
                forall|j: int|
                    0 <= j < i ==> #[trigger] res@[j]@ == sequence_name(
                        *self,
                        (j + 1) as nat,
                        file_names@[order@[j] as int]@,
                    ),
            decreases order@.len() - i,
        {
            let name = self.sequence_file_name(i + 1, file_names[order[i]].as_str());
            res.push(name);
            i = i + 1;
        }
        res
    }
}

/// Keys that order files by path.
pub open spec fn path_keys(paths: Seq<String>) -> Seq<KeyValue> {
    Seq::new(paths.len(), |k: int| KeyValue::Path(crate::path::path_parts(paths[k]@)))
}

/// Keys that order files by size.
pub open spec fn size_keys(sizes: Seq<u64>) -> Seq<KeyValue> {
    Seq::new(sizes.len(), |k: int| KeyValue::Size(sizes[k]))
}

/// Keys that order files by time.
pub open spec fn time_keys(times: Seq<i128>) -> Seq<KeyValue> {
    Seq::new(times.len(), |k: int| KeyValue::Time(times[k]))
}

impl SeqSortArgs {
    /// The order of files by path: ascending, or descending where asked.
    pub fn order_by_name(&self, paths: &Vec<String>) -> (ord: Vec<usize>)
        ensures
            is_sorted_order(path_keys(paths@), self.desc, ord@),
    {
        let mut keys: Vec<SortKey> = Vec::new();
        let mut k: usize = 0;
        while k < paths.len()
            invariant
                k <= paths@.len(),
                keys@.len() == k,
                forall|j: int| 0 <= j < k ==> #[trigger] keys_view(keys@)[j] == path_keys(paths@)[j],
            decreases paths@.len() - k,
        {
            let ghost old_keys = keys@;
            keys.push(SortKey::Path(parse_path(paths[k].as_str())));
            proof {
                assert forall|j: int| 0 <= j < k + 1 implies #[trigger] keys_view(keys@)[j] == path_keys(paths@)[j] by {
                    if j < k {
                        assert(keys@[j] == old_keys[j]);
                        assert(keys_view(old_keys)[j] == path_keys(paths@)[j]);
                    }
                }
            }
            k = k + 1;
        }
        assert(keys_view(keys@) =~= path_keys(paths@));
        sort_order(&keys, self.desc)
    }

    /// The order of files by size: ascending, or descending where asked;
    /// files of one size keep their given order.
    pub fn order_by_size(&self, sizes: &Vec<u64>) -> (ord: Vec<usize>)
        ensures
            is_sorted_order(size_keys(sizes@), self.desc, ord@),
    {
        let mut keys: Vec<SortKey> = Vec::new();
        let mut k: usize = 0;
        while k < sizes.len()
            invariant
                k <= sizes@.len(),
                keys@.len() == k,
                forall|j: int| 0 <= j < k ==> #[trigger] keys_view(keys@)[j] == size_keys(sizes@)[j],
            decreases sizes@.len() - k,
        {
            let ghost old_keys = keys@;
            keys.push(SortKey::Size(sizes[k]));
            proof {
                assert forall|j: int| 0 <= j < k + 1 implies #[trigger] keys_view(keys@)[j] == size_keys(sizes@)[j] by {
                    if j < k {
                        assert(keys@[j] == old_keys[j]);
                        assert(keys_view(old_keys)[j] == size_keys(sizes@)[j]);
                    }
                }
            }
            k = k + 1;
        }
        assert(keys_view(keys@) =~= size_keys(sizes@));
        sort_order(&keys, self.desc)
    }

    /// The order of files by modification time: ascending, or descending
    /// where asked; files of one time keep their given order.
    pub fn order_by_time(&self, times: &Vec<i128>) -> (ord: Vec<usize>)
        ensures
            is_sorted_order(time_keys(times@), self.desc, ord@),
    {
        let mut keys: Vec<SortKey> = Vec::new();
        let mut k: usize = 0;
        while k < times.len()
            invariant
                k <= times@.len(),
                keys@.len() == k,
                forall|j: int| 0 <= j < k ==> #[trigger] keys_view(keys@)[j] == time_keys(times@)[j],
            decreases times@.len() - k,
        {
            let ghost old_keys = keys@;
            keys.push(SortKey::Time(times[k]));
            proof {
                assert forall|j: int| 0 <= j < k + 1 implies #[trigger] keys_view(keys@)[j] == time_keys(times@)[j] by {
                    if j < k {
                        assert(keys@[j] == old_keys[j]);
                        assert(keys_view(old_keys)[j] == time_keys(times@)[j]);
                    }
                }
            }
            k = k + 1;
        }
        assert(keys_view(keys@) =~= time_keys(times@));
        sort_order(&keys, self.desc)
    }
}

/// Numbering files by path in descending order reverses the ascending
/// numbers: of `n` files with distinct paths, the file numbered `k` in
/// ascending order is numbered `n + 1 - k` in descending order.
pub proof fn lemma_desc_numbers_reverse_asc(paths: Seq<String>, asc: Seq<usize>, desc: Seq<usize>)
    requires
        forall|i: int, j: int|
            0 <= i < j < paths.len() ==> #[trigger] crate::path::path_parts(paths[i]@) != #[trigger] crate::path::path_parts(
                paths[j]@,
            ),
        is_sorted_order(path_keys(paths), false, asc),
        is_sorted_order(path_keys(paths), true, desc),
    ensures
        forall|a: int, b: int|
            0 <= a < paths.len() && 0 <= b < paths.len() && #[trigger] asc[a] == #[trigger] desc[b] ==> b + 1
                == paths.len() + 1 - (a + 1),
{
    let keys = path_keys(paths);
    let n = paths.len() as int;
    assert forall|i: int, j: int| 0 <= i < j < keys.len() implies #[trigger] keys[i] != #[trigger] keys[j] by {
        assert(crate::path::path_parts(paths[i]@) != crate::path::path_parts(paths[j]@));
    }
    lemma_desc_reverses_asc(keys, asc, desc);
    crate::sorting::lemma_comes_before_total_order(keys, true);
    assert forall|a: int, b: int| 0 <= a < n && 0 <= b < n && #[trigger] asc[a] == #[trigger] desc[b] implies b + 1
        == n + 1 - (a + 1) by {
        let c = n - 1 - a;
        assert(desc[c] == asc[a]);
        if b < c {
            assert(comes_before(keys, true, desc[b] as int, desc[c] as int));
        } else if c < b {
            assert(comes_before(keys, true, desc[c] as int, desc[b] as int));
        }
    }
}

/// The index of the first `c` in `s`; the length of `s` where there is none.
pub open spec fn first_index_of(s: Seq<char>, c: char) -> int
    decreases s.len(),
{
    if s.len() == 0 {
        0
    } else if s[0] == c {
        0
    } else {
        1 + first_index_of(s.drop_first(), c)
    }
}

proof fn lemma_first_index_of(s: Seq<char>, c: char)
    requires
        s.len() > 0,
        s.last() == c,
    ensures
        0 <= first_index_of(s, c) < s.len(),
        s[first_index_of(s, c)] == c,
        forall|i: int| 0 <= i < first_index_of(s, c) ==> s[i] != c,
    decreases s.len(),
{
    if s[0] != c {
        lemma_first_index_of(s.drop_first(), c);
        let f = first_index_of(s.drop_first(), c);
        assert forall|i: int| 0 <= i < first_index_of(s, c) implies s[i] != c by {
            if i > 0 {
                assert(s[i] == s.drop_first()[i - 1]);
            }
        }
    }
}

/// Names whose numbers (or digests) differ in length differ: the first `.`
/// after the number falls at different places.
proof fn lemma_differ_by_number_length(
    pre: Seq<char>,
    x: Seq<char>,
    y: Seq<char>,
    suf: Seq<char>,
    e1: Seq<char>,
    e2: Seq<char>,
)
    requires
        x.len() < y.len(),
        forall|i: int| 0 <= i < y.len() ==> #[trigger] y[i] != '.',
    ensures
        pre + x + (suf + seq!['.'] + e1) != pre + y + (suf + seq!['.'] + e2),
{
    let s1 = suf + seq!['.'];
    lemma_first_index_of(s1, '.');
    let f = first_index_of(s1, '.');
    let t1 = suf + seq!['.'] + e1;
    let t2 = suf + seq!['.'] + e2;
    let l = pre + x + t1;
    let r = pre + y + t2;
    if l == r {
        let idx = pre.len() + x.len() + f;
        assert(t1[f] == s1[f]);
        assert(l[idx] == '.');
        if x.len() + f < y.len() {
            assert(r[idx] == y[x.len() + f]);
        } else {
            let q = x.len() + f - y.len();
            assert(r[idx] == t2[q]);
            assert(t2[q] == s1[q]);
        }
    }
}

proof fn lemma_differ_at_offset(x: Seq<char>, y: Seq<char>, p: Seq<char>, rx: Seq<char>, ry: Seq<char>)
    requires
        x.len() == y.len(),
        x != y,
    ensures
        p + x + rx != p + y + ry,
{
    if forall|k: int| 0 <= k < x.len() ==> x[k] == y[k] {
        assert(x =~= y);
    }
    let i = choose|i: int| 0 <= i < x.len() && x[i] != y[i];
    assert((p + x + rx)[p.len() + i] == x[i]);
    assert((p + y + ry)[p.len() + i] == y[i]);
}

/// A name with a `.` after the stem differs from a name without one, where
/// the two middle parts hold no `.`: the first has one `.` more.
proof fn lemma_differ_by_dots(pre: Seq<char>, x: Seq<char>, y: Seq<char>, suf: Seq<char>, e: Seq<char>)
    requires
        forall|i: int| 0 <= i < x.len() ==> #[trigger] x[i] != '.',
        forall|i: int| 0 <= i < y.len() ==> #[trigger] y[i] != '.',
    ensures
        pre + x + suf + seq!['.'] + e != pre + y + suf,
{
    broadcast use vstd::seq_lib::lemma_multiset_commutative, vstd::multiset::group_multiset_axioms;

    let d = seq!['.'];
    x.to_multiset_ensures();
    y.to_multiset_ensures();
    d.to_multiset_ensures();
    assert(d.contains('.')) by {
        assert(d[0] == '.');
    }
    assert(x.to_multiset().count('.') == 0);
    assert(y.to_multiset().count('.') == 0);
    let l = pre + x + suf + d + e;
    let r = pre + y + suf;
    assert(l.to_multiset().count('.') == pre.to_multiset().count('.') + x.to_multiset().count('.')
        + suf.to_multiset().count('.') + d.to_multiset().count('.') + e.to_multiset().count('.'));
    assert(r.to_multiset().count('.') == pre.to_multiset().count('.') + y.to_multiset().count('.')
        + suf.to_multiset().count('.'));
}

/// Names whose stems differ only in a middle part without `.` differ, be
/// their extensions what they may: each case of `.` and extension.
proof fn lemma_names_differ(
    pre: Seq<char>,
    x: Seq<char>,
    y: Seq<char>,
    suf: Seq<char>,
    ex: Option<Seq<char>>,
    ey: Option<Seq<char>>,
)
    requires
        x != y,
        x.len() != y.len() ==> x.len() < y.len(),
        forall|i: int| 0 <= i < x.len() ==> #[trigger] x[i] != '.',
        forall|i: int| 0 <= i < y.len() ==> #[trigger] y[i] != '.',
    ensures
        (match ex {
            Some(e) => pre + x + suf + seq!['.'] + e,
            None => pre + x + suf,
        }) != (match ey {
            Some(e) => pre + y + suf + seq!['.'] + e,
            None => pre + y + suf,
        }),
{
    match (ex, ey) {
        (Some(e1), Some(e2)) => {
            assert(pre + x + suf + seq!['.'] + e1 =~= pre + x + (suf + seq!['.'] + e1));
            assert(pre + y + suf + seq!['.'] + e2 =~= pre + y + (suf + seq!['.'] + e2));
            if x.len() == y.len() {
                lemma_differ_at_offset(x, y, pre, suf + seq!['.'] + e1, suf + seq!['.'] + e2);
            } else {
                lemma_differ_by_number_length(pre, x, y, suf, e1, e2);
            }
        },
        (Some(e1), None) => {
            lemma_differ_by_dots(pre, x, y, suf, e1);
        },
        (None, Some(e2)) => {
            lemma_differ_by_dots(pre, y, x, suf, e2);
        },
        (None, None) => {
            if x.len() == y.len() {
                lemma_differ_at_offset(x, y, pre, suf, suf);
            } else {
                assert((pre + x + suf).len() != (pre + y + suf).len());
            }
        },
    }
}

/// The extension that a sequence name carries, where it carries one.
spec fn sequence_name_ext(args: RenameArgs, file_name: Seq<char>) -> Option<Seq<char>> {
    match extension_of(file_name) {
        Some(ext) => if ext.len() > 0 {
            Some(sequence_ext(args, ext))
        } else {
            None
        },
        None => None,
    }
}

/// The extension that a digest name carries, where it carries one.
spec fn digest_name_ext(args: RenameArgs, file_name: Seq<char>) -> Option<Seq<char>> {
    match extension_of(file_name) {
        Some(ext) => Some(digest_ext(args, ext)),
        None => None,
    }
}

/// Files numbered differently get different names.
pub proof fn lemma_sequence_names_distinct(args: RenameArgs, n: nat, m: nat, a: Seq<char>, b: Seq<char>)
    requires
        n != m,
    ensures
        sequence_name(args, n, a) != sequence_name(args, m, b),
{
    let w = args.seq_len as nat;
    lemma_zero_padded_injective(n, m, w);
    lemma_zero_padded_digits(n, w);
    lemma_zero_padded_digits(m, w);
    reveal_strlit(".");
    assert("."@ =~= seq!['.']);
    let dn = zero_padded(n, w);
    let dm = zero_padded(m, w);
    let pre = opt_text(args.prefix);
    let suf = opt_text(args.suffix);
    let xa = sequence_name_ext(args, a);
    let xb = sequence_name_ext(args, b);
    let name_n = match xa {
        Some(e) => pre + dn + suf + seq!['.'] + e,
        None => pre + dn + suf,
    };
    let name_m = match xb {
        Some(e) => pre + dm + suf + seq!['.'] + e,
        None => pre + dm + suf,
    };
    assert(sequence_name(args, n, a) =~= name_n);
    assert(sequence_name(args, m, b) =~= name_m);
    if dn.len() <= dm.len() {
        lemma_names_differ(pre, dn, dm, suf, xa, xb);
    } else {
        lemma_names_differ(pre, dm, dn, suf, xb, xa);
    }
}

proof fn lemma_hex_digit_injective(x: int, y: int, upper: bool)
    requires
        0 <= x < 16,
        0 <= y < 16,
        hex_digit(x, upper) == hex_digit(y, upper),
    ensures
        x == y,
{
    assert(hex_digit(x, upper) as int == hex_digit(y, upper) as int);
}

/// Distinct digests of one length have distinct hexadecimal texts.
pub proof fn lemma_hex_text_injective(h1: Seq<u8>, h2: Seq<u8>, upper: bool)
    requires
        h1.len() == h2.len(),
        h1 != h2,
    ensures
        hex_text(h1, upper) != hex_text(h2, upper),
    decreases h1.len(),
{
    if h1.len() == 0 {
        assert(h1 =~= h2);
    }
    if h1[0] != h2[0] {
        let t1 = hex_text(h1, upper);
        let t2 = hex_text(h2, upper);
        let head1 = seq![hex_digit(h1[0] as int / 16, upper), hex_digit(h1[0] as int % 16, upper)];
        let head2 = seq![hex_digit(h2[0] as int / 16, upper), hex_digit(h2[0] as int % 16, upper)];
        assert(t1 == head1 + hex_text(h1.drop_first(), upper));
        assert(t2 == head2 + hex_text(h2.drop_first(), upper));
        if t1 == t2 {
            assert(t1[0] == head1[0] && t1[1] == head1[1]);
            assert(t2[0] == head2[0] && t2[1] == head2[1]);
            assert(h1[0] as int == (h1[0] as int / 16) * 16 + h1[0] as int % 16);
            assert(h2[0] as int == (h2[0] as int / 16) * 16 + h2[0] as int % 16);
            lemma_hex_digit_injective(h1[0] as int / 16, h2[0] as int / 16, upper);
            lemma_hex_digit_injective(h1[0] as int % 16, h2[0] as int % 16, upper);
        }
    } else {
        assert(h1.drop_first() != h2.drop_first()) by {
            if h1.drop_first() == h2.drop_first() {
                assert(h1 =~= h2) by {
                    assert forall|k: int| 0 <= k < h1.len() implies h1[k] == h2[k] by {
                        if k > 0 {
                            assert(h1[k] == h1.drop_first()[k - 1]);
                            assert(h2[k] == h2.drop_first()[k - 1]);
                        }
                    }
                }
            }
        }
        lemma_hex_text_injective(h1.drop_first(), h2.drop_first(), upper);
        let head1 = seq![hex_digit(h1[0] as int / 16, upper), hex_digit(h1[0] as int % 16, upper)];
        let r1 = hex_text(h1.drop_first(), upper);
        let r2 = hex_text(h2.drop_first(), upper);
        lemma_hex_text_len(h1.drop_first(), upper);
        lemma_hex_text_len(h2.drop_first(), upper);
        lemma_differ_at_offset(r1, r2, head1, Seq::empty(), Seq::empty());
        assert(hex_text(h1, upper) =~= head1 + r1 + Seq::empty());
        assert(hex_text(h2, upper) =~= head1 + r2 + Seq::empty());
    }
}

proof fn lemma_hex_text_has_no_dot(data: Seq<u8>, upper: bool)
    ensures
        forall|i: int| 0 <= i < hex_text(data, upper).len() ==> #[trigger] hex_text(data, upper)[i] != '.',
    decreases data.len(),
{
    if data.len() > 0 {
        lemma_hex_text_has_no_dot(data.drop_first(), upper);
        let head = seq![hex_digit(data[0] as int / 16, upper), hex_digit(data[0] as int % 16, upper)];
        let rest = hex_text(data.drop_first(), upper);
        assert(hex_text(data, upper) == head + rest);
        assert forall|i: int| 0 <= i < hex_text(data, upper).len() implies #[trigger] hex_text(data, upper)[i] != '.' by {
            if i >= 2 {
                assert(hex_text(data, upper)[i] == rest[i - 2]);
            } else {
                assert(hex_digit(data[0] as int / 16, upper) as int != '.' as int);
                assert(hex_digit(data[0] as int % 16, upper) as int != '.' as int);
            }
        }
    }
}

/// Files with different digests get different names.
pub proof fn lemma_digest_names_distinct(args: RenameArgs, h1: Seq<u8>, h2: Seq<u8>, a: Seq<char>, b: Seq<char>)
    requires
        h1 != h2,
    ensures
        digest_name(args, h1, a) != digest_name(args, h2, b),
{
    let t1 = hex_text(h1, args.upper);
    let t2 = hex_text(h2, args.upper);
    lemma_hex_text_len(h1, args.upper);
    lemma_hex_text_len(h2, args.upper);
    lemma_hex_text_has_no_dot(h1, args.upper);
    lemma_hex_text_has_no_dot(h2, args.upper);
    if h1.len() == h2.len() {
        lemma_hex_text_injective(h1, h2, args.upper);
    }
    reveal_strlit(".");
    assert("."@ =~= seq!['.']);
    let pre = opt_text(args.prefix);
    let suf = opt_text(args.suffix);
    let xa = digest_name_ext(args, a);
    let xb = digest_name_ext(args, b);
    let name1 = match xa {
        Some(e) => pre + t1 + suf + seq!['.'] + e,
        None => pre + t1 + suf,
    };
    let name2 = match xb {
        Some(e) => pre + t2 + suf + seq!['.'] + e,
        None => pre + t2 + suf,
    };
    assert(digest_name(args, h1, a) =~= name1);
    assert(digest_name(args, h2, b) =~= name2);
    if t1.len() <= t2.len() {
        lemma_names_differ(pre, t1, t2, suf, xa, xb);
    } else {
        lemma_names_differ(pre, t2, t1, suf, xb, xa);
    }
}

/// Exactly the flag named `name` is set: `seq` for sequence, else the name
/// of a digest (`md5`, `sha1`, `sha256`, `sha3-224`, `sha3-256`,
/// `sha3-384`, `sha3-512`).
pub open spec fn only_flag(r: NamingRuleArgs, name: Seq<char>) -> bool {
    &&& r.sequence == (name == "seq"@)
    &&& r.md5 == (name == "md5"@)
    &&& r.sha1 == (name == "sha1"@)
    &&& r.sha256 == (name == "sha256"@)
    &&& r.sha3_224 == (name == "sha3-224"@)
    &&& r.sha3_256 == (name == "sha3-256"@)
    &&& r.sha3_384 == (name == "sha3-384"@)
    &&& r.sha3_512 == (name == "sha3-512"@)
}

/// A digest flag set alone renames by the digest it names, the sequence
/// flag set alone renames by sequence, and no flag renames by MD5.
pub proof fn lemma_flag_names_its_rule(r: NamingRuleArgs, t: FileHashType)
    ensures
        only_flag(r, hash_type_name(t)) ==> naming_of(r) == Naming::Digest(t),
        only_flag(r, hash_type_name(t)) ==> (naming_of(r) matches Naming::Digest(u) && hash_type_name(u)
            == hash_type_name(t)),
        only_flag(r, "seq"@) ==> naming_of(r) == Naming::Sequence,
        !r.sequence && !r.md5 && !r.sha1 && !r.sha256 && !r.sha3_224 && !r.sha3_256 && !r.sha3_384 && !r.sha3_512
            ==> naming_of(r) == Naming::Digest(FileHashType::MD5),
{
    reveal_strlit("seq");
    reveal_strlit("md5");
    reveal_strlit("sha1");
    reveal_strlit("sha256");
    reveal_strlit("sha3-224");
    reveal_strlit("sha3-256");
    reveal_strlit("sha3-384");
    reveal_strlit("sha3-512");
    assert("seq"@.len() == 3 && "md5"@.len() == 3 && "sha1"@.len() == 4 && "sha256"@.len() == 6);
    assert("sha3-224"@.len() == 8 && "sha3-256"@.len() == 8 && "sha3-384"@.len() == 8 && "sha3-512"@.len() == 8);
    assert("seq"@[0] != "md5"@[0]);
    assert("sha3-224"@[6] != "sha3-256"@[6]);
    assert("sha3-224"@[5] != "sha3-384"@[5]);
    assert("sha3-224"@[5] != "sha3-512"@[5]);
    assert("sha3-256"@[5] != "sha3-384"@[5]);
    assert("sha3-256"@[5] != "sha3-512"@[5]);
    assert("sha3-384"@[5] != "sha3-512"@[5]);
    match t {
        FileHashType::MD5 => {},
        FileHashType::SHA1 => assert("sha1"@ != "md5"@),
        FileHashType::SHA256 => assert("sha256"@ != "md5"@ && "sha256"@ != "sha1"@),
        FileHashType::SHA3_224 => assert("sha3-224"@ != "md5"@ && "sha3-224"@ != "sha1"@ && "sha3-224"@ != "sha256"@),
        FileHashType::SHA3_256 => assert("sha3-256"@ != "md5"@ && "sha3-256"@ != "sha1"@ && "sha3-256"@ != "sha256"@),
        FileHashType::SHA3_384 => assert("sha3-384"@ != "md5"@ && "sha3-384"@ != "sha1"@ && "sha3-384"@ != "sha256"@),
        FileHashType::SHA3_512 => assert("sha3-512"@ != "md5"@ && "sha3-512"@ != "sha1"@ && "sha3-512"@ != "sha256"@),
    }
    assert("seq"@ != "sha1"@ && "seq"@ != "sha256"@ && "seq"@ != "sha3-224"@ && "seq"@ != "sha3-256"@);
    assert("seq"@ != "sha3-384"@ && "seq"@ != "sha3-512"@ && "seq"@ != "md5"@);
}

/// The new name of a file `stem.ext` renamed by sequence: the prefix, the
/// padded number, the suffix, `.`, and the file's own extension, made upper
/// case only under `upper_ext` and lower case only under `low_ext`; without
/// either flag it is kept as it is.
pub proof fn lemma_sequence_name_keeps_extension(args: RenameArgs, n: nat, stem: Seq<char>, ext: Seq<char>)
    requires
        stem.len() > 0,
        ext.len() > 0,
        forall|i: int| 0 <= i < ext.len() ==> #[trigger] ext[i] != '.',
    ensures
        ({
            let name = sequence_name(args, n, stem + seq!['.'] + ext);
            let base = opt_text(args.prefix) + zero_padded(n, args.seq_len as nat) + opt_text(args.suffix);
            &&& !args.upper_ext && !args.low_ext ==> name == base + seq!['.'] + ext
            &&& args.upper_ext ==> name == base + seq!['.'] + upper_text(ext)
            &&& !args.upper_ext && args.low_ext ==> name == base + seq!['.'] + lower_text(ext)
        }),
{
    assert((stem + seq!['.'] + ext).len() > 2);
    crate::path::lemma_extension_of_parts(stem, ext);
    reveal_strlit(".");
    assert("."@ =~= seq!['.']);
}

/// The new name of a file `stem.ext` renamed by digest: the prefix, the
/// digest in hexadecimal (upper case under `upper`), the suffix, `.`, and
/// the file's own extension, changed by `upper_ext` and `low_ext` only;
/// `upper` leaves the extension as it is.
pub proof fn lemma_digest_name_keeps_extension(args: RenameArgs, hash: Seq<u8>, stem: Seq<char>, ext: Seq<char>)
    requires
        stem.len() > 0,
        forall|i: int| 0 <= i < ext.len() ==> #[trigger] ext[i] != '.',
        stem + seq!['.'] + ext != seq!['.', '.'],
    ensures
        ({
            let name = digest_name(args, hash, stem + seq!['.'] + ext);
            let base = opt_text(args.prefix) + hex_text(hash, args.upper) + opt_text(args.suffix);
            &&& !args.upper_ext && !args.low_ext ==> name == base + seq!['.'] + ext
            &&& args.upper_ext && !args.low_ext ==> name == base + seq!['.'] + upper_text(ext)
            &&& !args.upper_ext && args.low_ext ==> name == base + seq!['.'] + lower_text(ext)
            &&& args.upper_ext && args.low_ext ==> name == base + seq!['.'] + lower_text(upper_text(ext))
        }),
{
    crate::path::lemma_extension_of_parts(stem, ext);
    reveal_strlit(".");
    assert("."@ =~= seq!['.']);
}

/// A name without an extension gets none: prefix, digest and suffix.
pub proof fn lemma_digest_name_without_extension(args: RenameArgs, hash: Seq<u8>, name: Seq<char>)
    requires
        forall|i: int| 0 <= i < name.len() ==> #[trigger] name[i] != '.',
    ensures
        digest_name(args, hash, name) == opt_text(args.prefix) + hex_text(hash, args.upper) + opt_text(args.suffix),
{
    assert(crate::path::last_index_of(name, '.') <= 0) by {
        crate::path::lemma_last_index_bounds(name, '.');
    }
}

} // verus!
