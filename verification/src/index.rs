//! The index: an immutable finite-state-transducer artifact built once from
//! the association table, loaded read-only, and searched with a compiled
//! expression that prunes the traversal.

use fst::IntoStreamer;
use vstd::prelude::*;
use vstd::string::StrSliceExecFns;
use crate::order::lex_lt;
use crate::table::{key_of, strictly_sorted, table_view, Assoc};
use crate::query::{
    entries_sorted, matching_entries, query_pattern, regex_new, regex_pattern, search_results,
    pattern_string, QueryError,
};

verus! {

#[verifier::external_type_specification]
#[verifier::external_body]
pub struct ExFstMap(fst::Map);

#[verifier::external_type_specification]
#[verifier::external_body]
#[verifier::reject_recursive_types(W)]
pub struct ExFstMapBuilder<W>(fst::MapBuilder<W>);

#[verifier::external_type_specification]
#[verifier::external_body]
pub struct ExFstError(fst::Error);

/// What a transducer map holds: its keys and values, in ascending key order.
pub uninterp spec fn map_entries(m: fst::Map) -> Seq<(Seq<u8>, u64)>;

/// What a builder has been fed so far, in insertion order.
pub uninterp spec fn builder_entries(b: fst::MapBuilder<Vec<u8>>) -> Seq<(Seq<u8>, u64)>;

/// The artifact the builder writes for the given entries. The bytes are a
/// function of the entries alone: the format holds no timestamp and nothing
/// of the environment.
pub uninterp spec fn artifact_bytes(entries: Seq<(Seq<u8>, u64)>) -> Seq<u8>;

/// Relies on fst::MapBuilder::memory: a fresh in-memory builder holds
/// nothing.
#[verifier::external_body]
fn builder_memory() -> (b: fst::MapBuilder<Vec<u8>>)
    ensures
        builder_entries(b) == Seq::<(Seq<u8>, u64)>::empty(),
{
    fst::MapBuilder::memory()
}

/// Relies on fst::MapBuilder::insert: a key strictly above every key inserted
/// before is appended, any other key is refused; writing into the in-memory
/// Vec<u8> cannot fail.
#[verifier::external_body]
fn builder_insert(b: &mut fst::MapBuilder<Vec<u8>>, key: &Vec<u8>, val: u64) -> (r: Result<
    (),
    fst::Error,
>)
    ensures
        r is Ok <==> (builder_entries(*old(b)).len() == 0 || lex_lt(
            builder_entries(*old(b)).last().0,
            key@,
        )),
        r is Ok ==> builder_entries(*final(b)) == builder_entries(*old(b)).push((key@, val)),
        r is Err ==> builder_entries(*final(b)) == builder_entries(*old(b)),
{
    b.insert(key, val)
}

/// Relies on fst::MapBuilder::into_inner with an in-memory writer: writing to
/// a Vec<u8> cannot fail, so the finished artifact always comes back; its
/// bytes are a function of the inserted entries alone.
#[verifier::external_body]
fn builder_into_bytes(b: fst::MapBuilder<Vec<u8>>) -> (r: Result<Vec<u8>, fst::Error>)
    ensures
        r is Ok,
        r is Ok ==> r.unwrap()@ == artifact_bytes(builder_entries(b)),
{
    b.into_inner()
}

/// Relies on fst::Map::from_bytes: bytes the builder wrote are accepted and
/// hold the entries the builder was fed. Nothing is claimed of other
/// accepted bytes: the load checks little more than a version number, and
/// the source itself warns that a corrupt transducer can pass it.
#[verifier::external_body]
fn map_from_bytes(bytes: Vec<u8>) -> (r: Result<fst::Map, fst::Error>)
    ensures
        forall|es: Seq<(Seq<u8>, u64)>|
            bytes@ == #[trigger] artifact_bytes(es) ==> r is Ok && map_entries(r.unwrap()) == es,
{
    fst::Map::from_bytes(bytes)
}

/// Relies on fst::Map::search with a compiled expression, and on
/// fst::map::Stream::into_byte_vec: the stream yields exactly the entries
/// whose keys the expression accepts, in map order. Only a map whose keys
/// ascend — one reconstructed from builder-written bytes — may be searched:
/// on a corrupt transducer the traversal itself can go wrong.
#[verifier::external_body]
fn map_search(m: &fst::Map, re: &fst_regex::Regex) -> (r: Vec<(Vec<u8>, u64)>)
    requires
        entries_sorted(map_entries(*m)),
    ensures
        raw_views(r@) == matching_entries(map_entries(*m), regex_pattern(*re)),
        forall|k: int|
            0 <= k < r@.len() ==> crate::query::regex_accepts(
                regex_pattern(*re),
                (#[trigger] r@[k]).0@,
            ),
{
    m.search(re).into_stream().into_byte_vec()
}

/// Relies on the Display impl of fst::Error for the wording of a load
/// failure.
#[verifier::external_body]
fn fst_error_message(e: &fst::Error) -> (m: String) {
    format!("{}", e)
}

/// Relies on the Display impl of fst_regex::Error for the wording of a
/// compile failure.
#[verifier::external_body]
fn regex_error_message(e: &fst_regex::Error) -> (m: String) {
    format!("{}", e)
}

/// The views of raw search output.
pub open spec fn raw_views(v: Seq<(Vec<u8>, u64)>) -> Seq<(Seq<u8>, u64)> {
    v.map_values(|p: (Vec<u8>, u64)| (p.0@, p.1))
}

/// The index entries a built table turns into: UTF-8 name keys with the code
/// points as values.
pub open spec fn entries_of_table(t: Seq<Assoc>) -> Seq<(Seq<u8>, u64)> {
    t.map_values(|a: Assoc| (key_of(a), a.code as u64))
}

/// An artifact that could not be loaded.
#[derive(Debug)]
pub enum BuildError {
    BadArtifact { message: String },
}

impl BuildError {
    /// What was wrong with the artifact.
    pub fn message(&self) -> (m: &String)
        ensures
            self matches BuildError::BadArtifact { message } && m@ == message@,
    {
        match self {
            BuildError::BadArtifact { message } => message,
        }
    }
}

/// Serializes a built association table into the index artifact. The same
/// table always yields the same bytes.
pub fn build_artifact(t: &Vec<Assoc>) -> (bytes: Vec<u8>)
    requires
        strictly_sorted(t@),
    ensures
        bytes@ == artifact_bytes(entries_of_table(t@)),
{
    let mut b = builder_memory();
    let mut i: usize = 0;
    proof {
        assert(entries_of_table(t@.take(0)) =~= Seq::<(Seq<u8>, u64)>::empty());
    }
    while i < t.len()
        invariant
            i <= t@.len(),
            strictly_sorted(t@),
            builder_entries(b) == entries_of_table(t@.take(i as int)),
        decreases t@.len() - i,
    {
        let key = t[i].name.as_str().as_bytes_vec();
        proof {
            let pre = entries_of_table(t@.take(i as int));
            if pre.len() > 0 {
                assert(pre.last().0 == key_of(t@[i - 1]));
                assert(lex_lt(key_of(t@[i - 1]), key_of(t@[i as int])));
            }
        }
        let r = builder_insert(&mut b, &key, t[i].code as u64);
        match r {
            Ok(()) => {},
            Err(_) => {
                return vstd::pervasive::unreached();
            },
        }
        proof {
            assert(entries_of_table(t@.take(i as int + 1)) =~= entries_of_table(
                t@.take(i as int),
            ).push((key_of(t@[i as int]), t@[i as int].code as u64)));
        }
        i = i + 1;
    }
    proof {
        assert(t@.take(t@.len() as int) =~= t@);
    }
    match builder_into_bytes(b) {
        Ok(bytes) => bytes,
        Err(_) => vstd::pervasive::unreached(),
    }
}

/// The queryable handle over an index artifact. It is cheap to construct and
/// never mutated.
pub struct Index {
    map: fst::Map,
}

impl Index {
    /// The entries of the index, in ascending key order.
    pub closed spec fn entries(&self) -> Seq<(Seq<u8>, u64)> {
        map_entries(self.map)
    }

    /// Keys ascend strictly: every name occurs at most once.
    pub open spec fn wf(&self) -> bool {
        entries_sorted(self.entries())
    }

    /// Builds the index over a built association table.
    pub fn build(t: &Vec<Assoc>) -> (ix: Index)
        requires
            strictly_sorted(t@),
        ensures
            ix.entries() == entries_of_table(t@),
            ix.wf(),
    {
        proof {
            lemma_entries_of_table_sorted(t@);
        }
        let bytes = build_artifact(t);
        match map_from_bytes(bytes) {
            Ok(m) => Index { map: m },
            Err(_) => vstd::pervasive::unreached(),
        }
    }

    /// Reconstructs the index from artifact bytes, as when the artifact is
    /// embedded into the program. Bytes the builder wrote always load, and
    /// load to the entries they were built from — those are well formed,
    /// since the builder only accepts ascending keys. Of bytes from anywhere
    /// else nothing is promised: a blob that happens to load is not known to
    /// be well formed, and only a well-formed index may be searched.
    pub fn from_artifact(bytes: Vec<u8>) -> (r: Result<Index, BuildError>)
        ensures
            forall|es: Seq<(Seq<u8>, u64)>|
                bytes@ == #[trigger] artifact_bytes(es) ==> r is Ok && r.unwrap().entries() == es,
            forall|es: Seq<(Seq<u8>, u64)>|
                bytes@ == #[trigger] artifact_bytes(es) && entries_sorted(es) ==> r is Ok
                    && r.unwrap().wf(),
    {
        match map_from_bytes(bytes) {
            Ok(m) => Ok(Index { map: m }),
            Err(e) => {
                let message = fst_error_message(&e);
                Err(BuildError::BadArtifact { message })
            },
        }
    }
}

/// A strictly sorted table feeds the index strictly ascending keys.
proof fn lemma_entries_of_table_sorted(t: Seq<Assoc>)
    requires
        strictly_sorted(t),
    ensures
        entries_sorted(entries_of_table(t)),
{
    assert forall|i: int, j: int| 0 <= i < j < entries_of_table(t).len() implies lex_lt(
        (#[trigger] entries_of_table(t)[i]).0,
        (#[trigger] entries_of_table(t)[j]).0,
    ) by {
        assert(lex_lt(key_of(t[i]), key_of(t[j])));
    };
}

/// Searches the index: compiles the query into a case-insensitive expression
/// matched anywhere in a name, and streams the accepted entries out of the
/// index in ascending name order. The search succeeds exactly when the
/// wrapped pattern compiles. An entry whose key is not UTF-8 or whose value
/// exceeds 32 bits is skipped, never an error. A query that does not compile
/// is reported with its pattern and the underlying problem.
pub fn search(ix: &Index, query: &str) -> (r: Result<Vec<Assoc>, QueryError>)
    requires
        ix.wf(),
    ensures
        r is Ok <==> crate::query::regex_compiles(query_pattern(query@)),
        r is Ok ==> table_view(r.unwrap()@) == search_results(
            ix.entries(),
            query_pattern(query@),
        ),
        r is Err ==> (r.unwrap_err() matches QueryError::Compile { pattern, .. }
            && pattern@ == query_pattern(query@)),
{
    let p = pattern_string(query);
    let re = match regex_new(p.as_str()) {
        Ok(re) => re,
        Err(e) => {
            let message = regex_error_message(&e);
            return Err(QueryError::Compile { pattern: p, message });
        },
    };
    let raw = map_search(&ix.map, &re);
    let results = convert_raw(raw);
    Ok(results)
}

/// Turns raw entries into associations, skipping any whose key is not UTF-8
/// or whose value exceeds 32 bits.
fn convert_raw(raw: Vec<(Vec<u8>, u64)>) -> (out: Vec<Assoc>)
    ensures
        table_view(out@) == crate::query::convert_entries(raw_views(raw@)),
{
    let ghost target = raw_views(raw@);
    let mut out: Vec<Assoc> = Vec::new();
    let mut i: usize = 0;
    proof {
        assert(table_view(out@) =~= crate::query::convert_entries(target.take(0)));
    }
    let n = raw.len();
    while i < n
        invariant
            i <= n,
            n == raw@.len(),
            target == raw_views(raw@),
            table_view(out@) == crate::query::convert_entries(target.take(i as int)),
        decreases n - i,
    {
        let ghost pre = out@;
        proof {
            assert(target.take(i as int + 1).drop_last() =~= target.take(i as int));
            assert(target.take(i as int + 1).last() == target[i as int]);
        }
        let (key, val) = &raw[i];
        if *val <= u32::MAX as u64 {
            let code = *val as u32;
            proof {
                assert(code == target[i as int].1 as u32);
            }
            match string_from_utf8(key) {
                Some(name) => {
                    proof {
                        broadcast use vstd::utf8::encode_utf8_decode_utf8;

                        assert(target[i as int].0 == key@);
                        assert(vstd::utf8::decode_utf8(key@) == name@);
                    }
                    out.push(Assoc { name, code });
                    proof {
                        assert(table_view(out@) =~= table_view(pre).push(
                            crate::query::entry_view(target[i as int]),
                        ));
                    }
                },
                None => {
                    proof {
                        assert(!crate::query::convertible(target[i as int]));
                    }
                },
            }
        }
        i = i + 1;
    }
    proof {
        assert(target.take(n as int) =~= target);
    }
    out
}

/// Relies on str::from_utf8 of std: it accepts exactly valid UTF-8 and
/// returns the string those bytes encode.
#[verifier::external_body]
fn string_from_utf8(bytes: &Vec<u8>) -> (r: Option<String>)
    ensures
        r is Some <==> vstd::utf8::valid_utf8(bytes@),
        r is Some ==> vstd::utf8::encode_utf8(r.unwrap()@) == bytes@,
{
    std::str::from_utf8(bytes).ok().map(|s| s.to_string())
}

/// Law: the artifact is determined by the unordered input alone — building
/// the index twice from the same input yields byte-identical artifacts.
pub proof fn lemma_build_idempotent(input: Seq<Assoc>, t1: Seq<Assoc>, t2: Seq<Assoc>)
    requires
        crate::table::is_built_table(input, t1),
        crate::table::is_built_table(input, t2),
    ensures
        artifact_bytes(entries_of_table(t1)) == artifact_bytes(entries_of_table(t2)),
{
    crate::table::lemma_build_deterministic(input, t1, t2);
    assert(entries_of_table(t1) =~= entries_of_table(t2)) by {
        assert(table_view(t1) =~= table_view(t2));
        assert(t1.len() == t2.len());
        assert forall|k: int| 0 <= k < t1.len() implies (#[trigger] entries_of_table(t1)[k])
            == entries_of_table(t2)[k] by {
            assert(table_view(t1)[k] == table_view(t2)[k]);
            assert(t1[k].name@ == t2[k].name@ && t1[k].code == t2[k].code);
        };
    };
}

} // verus!
