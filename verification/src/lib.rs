//! Reader for a block-compressed game-archive container: a fixed header,
//! a data region of zlib-compressed block chains, an entry table, and a
//! directory entry that maps filenames to entry slots.

mod codec;
mod parser;

pub use parser::{Archive, Block, Entry, Footer, Header};

use vstd::prelude::*;

verus! {

/// Failure of an archive operation: an I/O failure while a caller loads
/// bytes, or a structurally corrupt archive.
#[derive(Debug)]
pub enum Error {
    IO(std::io::Error),
    Parser,
}

impl From<std::io::Error> for Error {
    /// Wraps a file-system failure reported by a caller that loads the
    /// archive's bytes.
    fn from(e: std::io::Error) -> (r: Error) {
        Error::IO(e)
    }
}

impl vstd::std_specs::convert::FromSpecImpl<std::io::Error> for Error {
    open spec fn obeys_from_spec() -> bool {
        true
    }

    open spec fn from_spec(e: std::io::Error) -> Error {
        Error::IO(e)
    }
}

/// The bytes a block chain inflates to: each block's compressed payload
/// put through zlib and the outputs concatenated in chain order. `None`
/// when any block's stream is malformed.
pub open spec fn inflate_chain(bs: Seq<parser::BlockV>) -> Option<Seq<u8>>
    decreases bs.len(),
{
    if bs.len() == 0 {
        Some(Seq::empty())
    } else {
        match codec::inflate_of(bs[0].data) {
            Some(d) => match inflate_chain(bs.drop_first()) {
                Some(rest) => Some(d + rest),
                None => None,
            },
            None => None,
        }
    }
}

/// The full uncompressed byte stream of an entry: its block chain
/// inflated, or `None` when the chain is absent or malformed.
pub open spec fn entry_plain(e: parser::EntryV) -> Option<Seq<u8>> {
    match e.blocks {
        Some(bs) => inflate_chain(bs),
        None => None,
    }
}

impl Entry {
    /// Inflates this entry's block chain and concatenates the outputs,
    /// recomputing on every call: the result is a function of the entry
    /// alone.
    pub fn decompress(&self) -> (r: Result<Vec<u8>, Error>)
        ensures
            match r {
                Ok(v) => entry_plain(self@) == Some(v@),
                Err(e) => entry_plain(self@) is None && e matches Error::Parser,
            },
    {
        let blocks = match &self.blocks {
            Some(bs) => bs,
            None => {
                return Err(Error::Parser);
            },
        };
        let ghost bv = blocks@.map_values(|b: Block| b@);
        let mut out: Vec<u8> = Vec::new();
        let mut i: usize = 0;
        proof {
            assert(bv.skip(0) =~= bv);
            if inflate_chain(bv) is Some {
                assert(out@ + inflate_chain(bv)->0 =~= inflate_chain(bv)->0);
            }
        }
        while i < blocks.len()
            invariant
                i <= blocks@.len(),
                bv == blocks@.map_values(|b: Block| b@),
                self@.blocks == Some(bv),
                match inflate_chain(bv.skip(i as int)) {
                    Some(rest) => inflate_chain(bv) == Some(out@ + rest),
                    None => inflate_chain(bv) is None,
                },
            decreases blocks@.len() - i,
        {
            let ghost pre = inflate_chain(bv.skip(i as int));
            match codec::zlib_inflate(blocks[i].data.as_slice()) {
                Some(mut part) => {
                    proof {
                        assert(bv.skip(i as int)[0] == bv[i as int]);
                        assert(bv.skip(i as int).drop_first() =~= bv.skip(i as int + 1));
                        assert(pre == (match inflate_chain(bv.skip(i as int + 1)) {
                            Some(rest) => Some(part@ + rest),
                            None => None::<Seq<u8>>,
                        }));
                    }
                    let ghost out_pre = out@;
                    out.append(&mut part);
                    proof {
                        if inflate_chain(bv.skip(i as int + 1)) is Some {
                            let rest = inflate_chain(bv.skip(i as int + 1))->0;
                            assert((out_pre + (out@.subrange(out_pre.len() as int, out@.len() as int))) + rest
                                =~= out_pre + (out@.subrange(out_pre.len() as int, out@.len() as int) + rest));
                            assert(out@ + rest =~= out_pre + (out@.subrange(
                                out_pre.len() as int,
                                out@.len() as int,
                            ) + rest));
                        }
                    }
                    i = i + 1;
                },
                None => {
                    return Err(Error::Parser);
                },
            }
        }
        proof {
            assert(bv.skip(bv.len() as int) =~= Seq::<parser::BlockV>::empty());
        }
        Ok(out)
    }
}

/// What `filenames` returns: the directory payload of the last entry,
/// parsed as a name table, provided the name count matches the entry
/// count. `None` when the archive is empty, the directory entry does not
/// inflate, the payload does not parse, or the counts differ.
pub open spec fn spec_filenames(a: Archive) -> Option<Seq<Seq<char>>> {
    if a.entries@.len() == 0 {
        None
    } else {
        match entry_plain(a.entries@.last()@) {
            None => None,
            Some(bytes) => match parser::dir_names(bytes) {
                None => None,
                Some(names) => if names.len() == a.entry_count as int {
                    Some(names)
                } else {
                    None
                },
            },
        }
    }
}

/// The index of the first name that matches `q` without regard to ASCII
/// case.
pub open spec fn find_ci(names: Seq<Seq<char>>, q: Seq<char>) -> Option<int>
    decreases names.len(),
{
    if names.len() == 0 {
        None
    } else if codec::eq_ci(names[0], q) {
        Some(0)
    } else {
        match find_ci(names.drop_first(), q) {
            Some(i) => Some(i + 1),
            None => None,
        }
    }
}

/// What `get` returns: the outer `None` is a failed archive operation,
/// `Some(None)` is a name that matches no entry, and `Some(Some(b))` the
/// uncompressed bytes of the first entry whose name matches.
pub open spec fn spec_get(a: Archive, q: Seq<char>) -> Option<Option<Seq<u8>>> {
    match spec_filenames(a) {
        None => None,
        Some(names) => match find_ci(names, q) {
            None => Some(None),
            Some(i) => if i < a.entries@.len() {
                match entry_plain(a.entries@[i]@) {
                    Some(b) => Some(Some(b)),
                    None => None,
                }
            } else {
                Some(None)
            },
        },
    }
}

/// What `files` returns: one (name, bytes) pair per entry, names and
/// entries aligned by position.
pub open spec fn spec_files(a: Archive) -> Option<Seq<(Seq<char>, Seq<u8>)>> {
    match spec_filenames(a) {
        None => None,
        Some(names) => {
            let n = if names.len() <= a.entries@.len() {
                names.len() as int
            } else {
                a.entries@.len() as int
            };
            if forall|i: int| 0 <= i < n ==> (#[trigger] entry_plain(a.entries@[i]@)) is Some {
                Some(Seq::new(n as nat, |i: int| (names[i], entry_plain(a.entries@[i]@)->0)))
            } else {
                None
            }
        },
    }
}

impl Archive {
    /// Inflates the directory entry (the last entry in offset order) and
    /// parses it as the name table, fresh on every call. The names are
    /// index-aligned with the sorted entries, and their number always
    /// equals the entry count.
    pub fn filenames(&self) -> (r: Result<Vec<String>, Error>)
        ensures
            match r {
                Ok(v) => spec_filenames(*self) == Some(v@.map_values(|s: String| s@)),
                Err(e) => spec_filenames(*self) is None && e matches Error::Parser,
            },
    {
        if self.entries.len() == 0 {
            return Err(Error::Parser);
        }
        let directory_entry = &self.entries[self.entries.len() - 1];
        assert(*directory_entry == self.entries@.last());
        let bytes = match directory_entry.decompress() {
            Ok(b) => b,
            Err(_) => {
                return Err(Error::Parser);
            },
        };
        let names = match parser::directory(bytes.as_slice()) {
            Ok(ns) => ns,
            Err(_) => {
                return Err(Error::Parser);
            },
        };
        if names.len() != self.entry_count as usize {
            return Err(Error::Parser);
        }
        Ok(names)
    }

    /// Looks a file up by name, without regard to ASCII case, and
    /// inflates it. A name that matches no entry is `Ok(None)`, not an
    /// error.
    pub fn get(&self, filename: &str) -> (r: Result<Option<Vec<u8>>, Error>)
        ensures
            match r {
                Ok(Some(v)) => spec_get(*self, filename@) == Some(Some(v@)),
                Ok(None) => spec_get(*self, filename@) == Some(None::<Seq<u8>>),
                Err(e) => spec_get(*self, filename@) is None && e matches Error::Parser,
            },
    {
        let names = match self.filenames() {
            Ok(ns) => ns,
            Err(_) => {
                return Err(Error::Parser);
            },
        };
        let ghost nv = names@.map_values(|s: String| s@);
        let mut i: usize = 0;
        while i < names.len()
            invariant
                i <= names@.len(),
                nv == names@.map_values(|s: String| s@),
                spec_filenames(*self) == Some(nv),
                forall|k: int| 0 <= k < i as int ==> !codec::eq_ci(#[trigger] nv[k], filename@),
            decreases names@.len() - i,
        {
            if codec::str_eq_ci(&names[i], filename) {
                proof {
                    lemma_find_ci_first(nv, filename@, i as int);
                }
                if i < self.entries.len() {
                    match self.entries[i].decompress() {
                        Ok(v) => {
                            return Ok(Some(v));
                        },
                        Err(_) => {
                            return Err(Error::Parser);
                        },
                    }
                } else {
                    return Ok(None);
                }
            }
            i = i + 1;
        }
        proof {
            lemma_find_ci_none(nv, filename@);
        }
        Ok(None)
    }

    /// Consumes the archive into its (name, bytes) pairs, one per entry,
    /// in sorted-entry order, inflating each entry in turn.
    pub fn files(self) -> (r: Result<Vec<(String, Vec<u8>)>, Error>)
        ensures
            match r {
                Ok(v) => spec_files(self) == Some(
                    v@.map_values(|p: (String, Vec<u8>)| (p.0@, p.1@)),
                ),
                Err(e) => spec_files(self) is None && e matches Error::Parser,
            },
    {
        let names = match self.filenames() {
            Ok(ns) => ns,
            Err(_) => {
                return Err(Error::Parser);
            },
        };
        let ghost names0 = names@.map_values(|s: String| s@);
        let count = if names.len() <= self.entries.len() {
            names.len()
        } else {
            self.entries.len()
        };
        let mut rest = names;
        let mut out: Vec<(String, Vec<u8>)> = Vec::new();
        let mut i: usize = 0;
        while i < count
            invariant
                i <= count as int,
                count as int == (if names0.len() <= self.entries@.len() {
                    names0.len() as int
                } else {
                    self.entries@.len() as int
                }),
                spec_filenames(self) == Some(names0),
                rest@.len() + i as int == names0.len(),
                rest@.map_values(|s: String| s@) == names0.skip(i as int),
                out@.len() == i as int,
                forall|k: int|
                    0 <= k < i as int ==> (#[trigger] entry_plain(self.entries@[k]@)) is Some,
                forall|k: int|
                    0 <= k < i as int ==> (#[trigger] out@[k]).0@ == names0[k] && out@[k].1@
                        == entry_plain(self.entries@[k]@)->0,
            decreases count as int - i,
        {
            let ghost rest_pre = rest@;
            let nm = rest.remove(0);
            proof {
                assert(rest_pre.map_values(|s: String| s@)[0] == nm@);
                assert(nm@ == names0[i as int]);
                assert(rest@.map_values(|s: String| s@) =~= rest_pre.map_values(
                    |s: String| s@,
                ).drop_first());
                assert(rest@.map_values(|s: String| s@) =~= names0.skip(i as int + 1));
            }
            let v = match self.entries[i].decompress() {
                Ok(v) => v,
                Err(_) => {
                    return Err(Error::Parser);
                },
            };
            out.push((nm, v));
            i = i + 1;
        }
        proof {
            assert(spec_files(self) == Some(
                Seq::new(count as nat, |k: int| (names0[k], entry_plain(self.entries@[k]@)->0)),
            ));
            assert(out@.map_values(|p: (String, Vec<u8>)| (p.0@, p.1@)) =~= Seq::new(
                count as nat,
                |k: int| (names0[k], entry_plain(self.entries@[k]@)->0),
            ));
        }
        Ok(out)
    }
}

/// Parses an in-memory buffer as a whole archive.
pub fn load(data: &[u8]) -> (r: Result<Archive, Error>)
    ensures
        match r {
            Ok(a) => parser::parse_ok(data@) && parser::archive_matches(a, data@),
            Err(e) => !parser::parse_ok(data@) && e matches Error::Parser,
        },
{
    parser::parse(data)
}

/// A name list that matches `q` at position `i`, and nowhere earlier,
/// finds `q` exactly there.
pub proof fn lemma_find_ci_first(names: Seq<Seq<char>>, q: Seq<char>, i: int)
    requires
        0 <= i < names.len(),
        codec::eq_ci(names[i], q),
        forall|k: int| 0 <= k < i ==> !codec::eq_ci(#[trigger] names[k], q),
    ensures
        find_ci(names, q) == Some(i),
    decreases names.len(),
{
    if i == 0 {
    } else {
        assert(!codec::eq_ci(names[0], q));
        assert(names.drop_first()[i - 1] == names[i]);
        assert(forall|k: int|
            0 <= k < i - 1 ==> !codec::eq_ci(#[trigger] names.drop_first()[k], q));
        lemma_find_ci_first(names.drop_first(), q, i - 1);
    }
}

/// A name list in which nothing matches `q` finds nothing.
pub proof fn lemma_find_ci_none(names: Seq<Seq<char>>, q: Seq<char>)
    requires
        forall|k: int| 0 <= k < names.len() ==> !codec::eq_ci(#[trigger] names[k], q),
    ensures
        find_ci(names, q) is None,
    decreases names.len(),
{
    if names.len() > 0 {
        assert(forall|k: int|
            0 <= k < names.drop_first().len() ==> !codec::eq_ci(
                #[trigger] names.drop_first()[k],
                q,
            ));
        lemma_find_ci_none(names.drop_first(), q);
    }
}

/// A parsed name list is always exactly one name per entry: its length
/// equals the archive's entry count. Together with `filenames`'s
/// contract, which pins the list to a function of the archive value,
/// repeated calls return the same list.
pub proof fn lemma_filenames_count(a: Archive)
    requires
        spec_filenames(a) is Some,
    ensures
        spec_filenames(a)->0.len() == a.entry_count as int,
{
}

/// Inflating an entry is deterministic: two successful decompressions
/// of the same entry value yield byte-identical output.
pub proof fn lemma_decompress_deterministic(e: parser::EntryV, r1: Seq<u8>, r2: Seq<u8>)
    requires
        entry_plain(e) == Some(r1),
        entry_plain(e) == Some(r2),
    ensures
        r1 == r2,
{
}

/// ASCII case-insensitive equality is transitive.
proof fn lemma_eq_ci_trans(a: Seq<char>, b: Seq<char>, c: Seq<char>)
    requires
        codec::eq_ci(a, b),
        codec::eq_ci(b, c),
    ensures
        codec::eq_ci(a, c),
{
    assert forall|i: int| 0 <= i < a.len() implies codec::fold_char(a[i]) == codec::fold_char(
        c[i],
    ) by {
        assert(codec::fold_char(a[i]) == codec::fold_char(b[i]));
        assert(codec::fold_char(b[i]) == codec::fold_char(c[i]));
    }
}

/// Queries that match each other without regard to ASCII case find the
/// same position in any name list.
proof fn lemma_find_ci_congruent(names: Seq<Seq<char>>, q1: Seq<char>, q2: Seq<char>)
    requires
        codec::eq_ci(q1, q2),
    ensures
        find_ci(names, q1) == find_ci(names, q2),
    decreases names.len(),
{
    if names.len() > 0 {
        assert(codec::eq_ci(q2, q1));
        if codec::eq_ci(names[0], q1) {
            lemma_eq_ci_trans(names[0], q1, q2);
        }
        if codec::eq_ci(names[0], q2) {
            lemma_eq_ci_trans(names[0], q2, q1);
        }
        lemma_find_ci_congruent(names.drop_first(), q1, q2);
    }
}

/// Looking a file up is insensitive to ASCII case: two queries that
/// match without regard to case get the same result.
pub proof fn lemma_get_case_insensitive(a: Archive, q1: Seq<char>, q2: Seq<char>)
    requires
        codec::eq_ci(q1, q2),
    ensures
        spec_get(a, q1) == spec_get(a, q2),
{
    if spec_filenames(a) is Some {
        lemma_find_ci_congruent(spec_filenames(a)->0, q1, q2);
    }
}

/// A query that matches no name of a readable archive is "not found",
/// never an error.
pub proof fn lemma_get_missing(a: Archive, q: Seq<char>)
    requires
        spec_filenames(a) is Some,
        forall|k: int|
            0 <= k < spec_filenames(a)->0.len() ==> !codec::eq_ci(
                #[trigger] spec_filenames(a)->0[k],
                q,
            ),
    ensures
        spec_get(a, q) == Some(None::<Seq<u8>>),
{
    lemma_find_ci_none(spec_filenames(a)->0, q);
}

/// `files` lines up with `filenames` and `get`: an archive with one
/// entry per name yields exactly entry-count pairs, pair `i` carries
/// name `i`, and — when no two names match without regard to ASCII case —
/// looking pair `i`'s name up returns pair `i`'s bytes.
pub proof fn lemma_files_match_get(a: Archive)
    requires
        spec_files(a) is Some,
        a.entries@.len() == a.entry_count as int,
        forall|i: int, j: int|
            0 <= i < j < spec_filenames(a)->0.len() ==> !codec::eq_ci(
                #[trigger] spec_filenames(a)->0[i],
                #[trigger] spec_filenames(a)->0[j],
            ),
    ensures
        spec_files(a)->0.len() == a.entry_count as int,
        forall|i: int|
            0 <= i < spec_files(a)->0.len() ==> (#[trigger] spec_files(a)->0[i]).0
                == spec_filenames(a)->0[i],
        forall|i: int|
            0 <= i < spec_files(a)->0.len() ==> spec_get(a, spec_filenames(a)->0[i]) == Some(
                Some((#[trigger] spec_files(a)->0[i]).1),
            ),
{
    let names = spec_filenames(a)->0;
    lemma_filenames_count(a);
    assert forall|i: int| 0 <= i < spec_files(a)->0.len() implies spec_get(a, names[i]) == Some(
        Some(spec_files(a)->0[i].1),
    ) by {
        assert(codec::eq_ci(names[i], names[i]));
        lemma_find_ci_first(names, names[i], i);
        assert(entry_plain(a.entries@[i]@) is Some);
    }
}

} // verus!
