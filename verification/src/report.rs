//! The text of a duplicate-file report.
use vstd::prelude::*;
use crate::digest::{hex_text, digest_hex};
use crate::dup::DupGroup;
use crate::enumerate::{FileHashType, hash_type_name};
use crate::command::{DupArgs, DupCommand};

verus! {

/// One line per path: `    - ` and the path.
pub open spec fn path_lines(files: Seq<String>) -> Seq<char>
    decreases files.len(),
{
    if files.len() == 0 {
        Seq::empty()
    } else {
        path_lines(files.drop_last()) + "    - "@ + files.last()@ + "\n"@
    }
}

/// The text of one group: a heading with the digest between `head` and
/// `tail`, the lines of its paths, and an empty line; nothing for a group of
/// fewer than two files.
pub open spec fn group_text(g: DupGroup, head: Seq<char>, tail: Seq<char>) -> Seq<char> {
    if g.files@.len() > 1 {
        head + hex_text(g.hash@, false) + tail + path_lines(g.files@) + "\n"@
    } else {
        Seq::empty()
    }
}

/// The text of all groups, one after another.
pub open spec fn groups_text(gs: Seq<DupGroup>, head: Seq<char>, tail: Seq<char>) -> Seq<char>
    decreases gs.len(),
{
    if gs.len() == 0 {
        Seq::empty()
    } else {
        groups_text(gs.drop_last(), head, tail) + group_text(gs.last(), head, tail)
    }
}

/// The text of groups followed by one more group is their text followed by
/// its text.
pub proof fn lemma_groups_text_push(gs: Seq<DupGroup>, g: DupGroup, head: Seq<char>, tail: Seq<char>)
    ensures
        groups_text(gs.push(g), head, tail) == groups_text(gs, head, tail) + group_text(g, head, tail),
{
    assert(gs.push(g).drop_last() =~= gs);
}

/// The text of two runs of groups one after the other is the text of the
/// first followed by the text of the second.
pub proof fn lemma_groups_text_concat(a: Seq<DupGroup>, b: Seq<DupGroup>, head: Seq<char>, tail: Seq<char>)
    ensures
        groups_text(a + b, head, tail) == groups_text(a, head, tail) + groups_text(b, head, tail),
    decreases b.len(),
{
    if b.len() == 0 {
        assert(a + b =~= a);
    } else {
        lemma_groups_text_concat(a, b.drop_last(), head, tail);
        assert((a + b).drop_last() =~= a + b.drop_last());
        assert((a + b).last() == b.last());
    }
}

/// Every group is listed, in its place: the text of the groups is that of
/// the groups before it, then its own, then that of the groups after it;
/// and the text of a group of two or more files is its heading with its
/// digest, then one line per file, then an empty line.
pub proof fn lemma_every_group_listed(gs: Seq<DupGroup>, i: int, head: Seq<char>, tail: Seq<char>)
    requires
        0 <= i < gs.len(),
    ensures
        groups_text(gs, head, tail) == groups_text(gs.take(i), head, tail) + group_text(gs[i], head, tail)
            + groups_text(gs.skip(i + 1), head, tail),
        gs[i].files@.len() > 1 ==> group_text(gs[i], head, tail) == head + hex_text(gs[i].hash@, false) + tail
            + path_lines(gs[i].files@) + "\n"@,
{
    lemma_groups_text_concat(gs.take(i).push(gs[i]), gs.skip(i + 1), head, tail);
    lemma_groups_text_push(gs.take(i), gs[i], head, tail);
    assert(gs.take(i).push(gs[i]) + gs.skip(i + 1) =~= gs);
}

/// The lines of a run of paths followed by more paths are the lines of the
/// first run followed by those of the second: every path gets its line.
pub proof fn lemma_path_lines_concat(a: Seq<String>, b: Seq<String>)
    ensures
        path_lines(a + b) == path_lines(a) + path_lines(b),
    decreases b.len(),
{
    if b.len() == 0 {
        assert(a + b =~= a);
    } else {
        lemma_path_lines_concat(a, b.drop_last());
        assert((a + b).drop_last() =~= a + b.drop_last());
        assert((a + b).last() == b.last());
    }
}

/// The heading of a group in the listing of duplicates under `digest`.
pub open spec fn listing_head(digest: FileHashType) -> Seq<char> {
    "duplicate files ("@ + hash_type_name(digest) + ": "@
}

fn append_path_lines(out: &mut String, files: &Vec<String>)
    ensures
        final(out)@ == old(out)@ + path_lines(files@),
{
    let ghost start = out@;
    let mut i: usize = 0;
    while i < files.len()
        invariant
            i <= files@.len(),
            out@ == start + path_lines(files@.take(i as int)),
        decreases files@.len() - i,
    {
        out.append("    - ");
        out.append(files[i].as_str());
        out.append("\n");
        proof {
            assert(files@.take(i + 1).drop_last() =~= files@.take(i as int));
            assert(files@.take(i + 1).last() == files@[i as int]);
        }
        i = i + 1;
    }
    assert(files@.take(files@.len() as int) =~= files@);
}

/// The text of the groups `groups`, each headed by `head`, its digest in
/// lower-case hexadecimal, and `tail`.
pub fn render_groups(groups: &Vec<DupGroup>, head: &str, tail: &str) -> (res: String)
    ensures
        res@ == groups_text(groups@, head@, tail@),
{
    let mut out = String::new();
    let mut i: usize = 0;
    while i < groups.len()
        invariant
            i <= groups@.len(),
            out@ == groups_text(groups@.take(i as int), head@, tail@),
        decreases groups@.len() - i,
    {
        let g = &groups[i];
        let ghost before = out@;
        if g.files.len() > 1 {
            out.append(head);
            let hex = digest_hex(g.hash.as_slice(), false);
            out.append(hex.as_str());
            out.append(tail);
            append_path_lines(&mut out, &g.files);
            out.append("\n");
            assert(out@ =~= before + group_text(*g, head@, tail@));
        } else {
            assert(out@ =~= before + group_text(*g, head@, tail@));
        }
        proof {
            assert(groups@.take(i + 1).drop_last() =~= groups@.take(i as int));
            assert(groups@.take(i + 1).last() == groups@[i as int]);
        }
        i = i + 1;
    }
    assert(groups@.take(groups@.len() as int) =~= groups@);
    out
}

/// The listing of duplicate groups found under `digest`: for each group,
/// `duplicate files (<digest>: <hex>)`, then its paths, then an empty line.
pub fn render_listing(groups: &Vec<DupGroup>, digest: FileHashType) -> (res: String)
    ensures
        res@ == groups_text(groups@, listing_head(digest), ")\n"@),
{
    let mut head = String::from_str("duplicate files (");
    let name = digest.name();
    head.append(name.as_str());
    head.append(": ");
    render_groups(groups, head.as_str(), ")\n")
}

/// The first lines of a saved listing of the duplicates under `dir`.
pub fn listing_title(dir: &str) -> (res: String)
    ensures
        res@ == "duplicate files found in "@ + dir@ + ":\n\n"@,
{
    let mut res = String::from_str("duplicate files found in ");
    res.append(dir);
    res.append(":\n\n");
    res
}

impl DupCommand {
    /// `path` without one trailing `/`, where it ends with one.
    pub fn remove_trailing_slash<'a>(&self, path: &'a str) -> (res: &'a str)
        ensures
            path@.len() > 0 && path@.last() == '/' ==> res@ == path@.drop_last(),
            !(path@.len() > 0 && path@.last() == '/') ==> res@ == path@,
    {
        let n = path.unicode_len();
        if n > 0 && path.get_char(n - 1) == '/' {
            let res = path.substring_char(0, n - 1);
            assert(res@ =~= path@.drop_last());
            res
        } else {
            path
        }
    }

    /// Where the report of a search is written: the output path where one
    /// is given, else the file `__duplicate_file.txt` in the searched
    /// directory.
    pub fn report_path(&self, args: &DupArgs) -> (res: String)
        ensures
            args.output@.len() > 0 ==> res@ == args.output@,
            args.output@.len() == 0 && args.dir@.len() > 0 && args.dir@.last() == '/' ==> res@
                == args.dir@.drop_last() + "/__duplicate_file.txt"@,
            args.output@.len() == 0 && !(args.dir@.len() > 0 && args.dir@.last() == '/') ==> res@ == args.dir@
                + "/__duplicate_file.txt"@,
    {
        if args.output.unicode_len() > 0 {
            return args.output.clone();
        }
        let base = self.remove_trailing_slash(args.dir.as_str());
        let mut res = String::from_str(base);
        res.append("/__duplicate_file.txt");
        res
    }

    /// The report on the directory `dir`: a title, then each group with its
    /// SHA3-256 digest and its paths.
    pub fn report_text(&self, dir: &str, groups: &Vec<DupGroup>) -> (res: String)
        ensures
            res@ == "Duplicate files in "@ + dir@ + ":\n\n"@ + groups_text(
                groups@,
                "Duplicate files sha3: "@,
                "\n"@,
            ),
    {
        let mut res = String::from_str("Duplicate files in ");
        res.append(dir);
        res.append(":\n\n");
        let body = render_groups(groups, "Duplicate files sha3: ", "\n");
        res.append(body.as_str());
        res
    }

    /// The digest by which this search tells files apart: SHA3-256.
    pub fn compute_file_hash(&self, data: &[u8]) -> (res: Vec<u8>)
        ensures
            res@ == crate::digest::digest_of(FileHashType::SHA3_256, data@),
            res@.len() == 32,
    {
        crate::digest::compute_hash(data, FileHashType::SHA3_256)
    }
}

} // verus!
