//! The build cache: the descriptor of an emitted module as bytes, and the rule
//! that says when a stored descriptor may stand in for emitting again.

use vstd::prelude::*;
use vstd::string::*;
use crate::name::Name;
use crate::pipeline::CFile;
use crate::text::{copy_strings, strs};

verus! {

/// The views of a sequence of lists of strings.
pub open spec fn strss(v: Seq<Vec<String>>) -> Seq<Seq<Seq<char>>> {
    Seq::new(v.len(), |i: int| strs(v[i]@))
}

/// The views of a sequence of names.
pub open spec fn names(v: Seq<Name>) -> Seq<Seq<Seq<char>>> {
    Seq::new(v.len(), |i: int| v[i]@)
}

/// What a descriptor holds, as plain sequences: the module's name, the emitted
/// file, the sources, the dependencies, the symbols, the compile flags and the
/// link flags.
pub type Record = (
    Seq<Seq<char>>,
    Seq<char>,
    Seq<Seq<char>>,
    Seq<Seq<Seq<char>>>,
    Seq<Seq<Seq<char>>>,
    Seq<Seq<char>>,
    Seq<Seq<char>>,
);

/// What a descriptor holds.
pub open spec fn record_of(cf: CFile) -> Record {
    (
        cf.name@,
        cf.filepath@,
        strs(cf.sources@),
        names(cf.deps@),
        names(cf.symbols@),
        strs(cf.cflags@),
        strs(cf.lflags@),
    )
}

/// The MessagePack bytes that `rmp_serde::to_vec` gives for a record written
/// as a tuple of its seven parts, or `None` where it reports an error.
pub uninterp spec fn msgpack_bytes(record: Record) -> Option<Seq<u8>>;

/// The record that `rmp_serde::from_read` reads from the bytes as a tuple of
/// seven parts, or `None` where it reports an error.
pub uninterp spec fn msgpack_record(bytes: Seq<u8>) -> Option<Record>;

/// Calls `rmp_serde::to_vec` on the seven parts as one tuple. The result is a
/// function of the parts alone: the encoder walks the tuple in order and keeps
/// no state between calls.
#[verifier::external_body]
fn encode_parts(
    name: &Vec<String>,
    filepath: &String,
    sources: &Vec<String>,
    deps: &Vec<Vec<String>>,
    symbols: &Vec<Vec<String>>,
    cflags: &Vec<String>,
    lflags: &Vec<String>,
) -> (r: Option<Vec<u8>>)
    ensures
        (match r {
            Some(b) => Some(b@),
            None => None,
        }) == msgpack_bytes(
            (
                strs(name@),
                filepath@,
                strs(sources@),
                strss(deps@),
                strss(symbols@),
                strs(cflags@),
                strs(lflags@),
            ),
        ),
{
    rmp_serde::to_vec(&(name, filepath, sources, deps, symbols, cflags, lflags)).ok()
}

/// The seven parts of a descriptor as owned values.
pub type Parts = (
    Vec<String>,
    String,
    Vec<String>,
    Vec<Vec<String>>,
    Vec<Vec<String>>,
    Vec<String>,
    Vec<String>,
);

/// What the seven parts hold.
pub open spec fn record_of_parts(p: Parts) -> Record {
    (strs(p.0@), p.1@, strs(p.2@), strss(p.3@), strss(p.4@), strs(p.5@), strs(p.6@))
}

/// Calls `rmp_serde::from_read` on the bytes, asking for a tuple of the seven
/// parts. The result is a function of the bytes alone: the decoder reads them
/// front to back and keeps no state between calls.
#[verifier::external_body]
fn decode_parts(bytes: &Vec<u8>) -> (r: Option<Parts>)
    ensures
        (match r {
            Some(p) => Some(record_of_parts(p)),
            None => None,
        }) == msgpack_record(bytes@),
{
    rmp_serde::from_read(&bytes[..]).ok()
}

fn segments_of(v: &Vec<Name>) -> (out: Vec<Vec<String>>)
    ensures
        strss(out@) == names(v@),
{
    let mut out: Vec<Vec<String>> = Vec::new();
    let mut i: usize = 0;
    while i < v.len()
        invariant
            i <= v.len(),
            out@.len() == i,
            forall|k: int| 0 <= k < i ==> strs(out@[k]@) == v@[k]@,
        decreases v.len() - i,
    {
        out.push(copy_strings(&v[i].0));
        i = i + 1;
    }
    proof {
        assert(strss(out@) =~= names(v@));
    }
    out
}

fn names_of(v: Vec<Vec<String>>) -> (out: Vec<Name>)
    ensures
        names(out@) == strss(v@),
{
    let mut v = v;
    let ghost all = v@;
    let mut back: Vec<Name> = Vec::new();
    while v.len() > 0
        invariant
            v@.len() <= all.len(),
            v@ == all.subrange(0, v@.len() as int),
            back@.len() == all.len() - v@.len(),
            forall|k: int| 0 <= k < back@.len() ==> back@[k]@ == strs(all[all.len() - 1 - k]@),
        decreases v.len(),
    {
        let ghost n = v@.len();
        match v.pop() {
            Some(segs) => {
                proof {
                    assert(segs == all[n - 1]);
                }
                back.push(Name(segs));
            },
            None => {},
        }
    }
    let mut out: Vec<Name> = Vec::new();
    while back.len() > 0
        invariant
            back@.len() + out@.len() == all.len(),
            forall|k: int| 0 <= k < back@.len() ==> back@[k]@ == strs(all[all.len() - 1 - k]@),
            forall|k: int| 0 <= k < out@.len() ==> out@[k]@ == strs(all[k]@),
        decreases back.len(),
    {
        match back.pop() {
            Some(n) => {
                out.push(n);
            },
            None => {},
        }
    }
    proof {
        assert(names(out@) =~= strss(all));
    }
    out
}

fn same_strings(a: &Vec<String>, b: &Vec<String>) -> (same: bool)
    ensures
        same == (strs(a@) == strs(b@)),
{
    if a.len() != b.len() {
        proof {
            assert(strs(a@).len() != strs(b@).len());
        }
        return false;
    }
    let mut i: usize = 0;
    while i < a.len()
        invariant
            a.len() == b.len(),
            i <= a.len(),
            forall|k: int| 0 <= k < i ==> a@[k]@ == b@[k]@,
        decreases a.len() - i,
    {
        if a[i] != b[i] {
            proof {
                assert(strs(a@)[i as int] != strs(b@)[i as int]);
            }
            return false;
        }
        i = i + 1;
    }
    proof {
        assert(strs(a@) =~= strs(b@));
    }
    true
}

fn same_lists(a: &Vec<Vec<String>>, b: &Vec<Vec<String>>) -> (same: bool)
    ensures
        same == (strss(a@) == strss(b@)),
{
    if a.len() != b.len() {
        proof {
            assert(strss(a@).len() != strss(b@).len());
        }
        return false;
    }
    let mut i: usize = 0;
    while i < a.len()
        invariant
            a.len() == b.len(),
            i <= a.len(),
            forall|k: int| 0 <= k < i ==> strs(a@[k]@) == strs(b@[k]@),
        decreases a.len() - i,
    {
        if !same_strings(&a[i], &b[i]) {
            proof {
                assert(strss(a@)[i as int] != strss(b@)[i as int]);
            }
            return false;
        }
        i = i + 1;
    }
    proof {
        assert(strss(a@) =~= strss(b@));
    }
    true
}

/// The bytes to store for a descriptor.
///
/// Whatever is handed out reads back as the same descriptor: the bytes are
/// decoded once more and compared before they leave. `None` where the encoder
/// reports an error or its output does not read back.
pub fn to_buildcache(cf: &CFile) -> (r: Option<Vec<u8>>)
    ensures
        r matches Some(b) ==> msgpack_bytes(record_of(*cf)) == Some(b@) && msgpack_record(b@)
            == Some(record_of(*cf)),
        r is None <==> (match msgpack_bytes(record_of(*cf)) {
            Some(b) => msgpack_record(b) != Some(record_of(*cf)),
            None => true,
        }),
{
    let name = copy_strings(&cf.name.0);
    let sources = copy_strings(&cf.sources);
    let deps = segments_of(&cf.deps);
    let symbols = segments_of(&cf.symbols);
    let bytes = match encode_parts(
        &name,
        &cf.filepath,
        &sources,
        &deps,
        &symbols,
        &cf.cflags,
        &cf.lflags,
    ) {
        None => {
            return None;
        },
        Some(b) => b,
    };
    match decode_parts(&bytes) {
        None => None,
        Some(p) => {
            if same_strings(&p.0, &name) && p.1 == cf.filepath && same_strings(&p.2, &sources)
                && same_lists(&p.3, &deps) && same_lists(&p.4, &symbols) && same_strings(
                &p.5,
                &cf.cflags,
            ) && same_strings(&p.6, &cf.lflags) {
                Some(bytes)
            } else {
                None
            }
        },
    }
}

/// The descriptor stored as `bytes`, or `None` where they hold none.
pub fn from_buildcache(bytes: &Vec<u8>) -> (r: Option<CFile>)
    ensures
        (match r {
            Some(cf) => Some(record_of(cf)),
            None => None,
        }) == msgpack_record(bytes@),
{
    match decode_parts(bytes) {
        None => None,
        Some(p) => Some(
            CFile {
                name: Name(p.0),
                filepath: p.1,
                sources: p.2,
                deps: names_of(p.3),
                symbols: names_of(p.4),
                cflags: p.5,
                lflags: p.6,
            },
        ),
    }
}

/// A descriptor that was stored reads back as it was: where `bytes` is what
/// `to_buildcache` handed out for `cf` and `back` is what `from_buildcache`
/// returned for `bytes`, `back` holds what `cf` holds.
pub proof fn lemma_cache_round_trip(cf: CFile, bytes: Seq<u8>, back: Option<CFile>)
    requires
        msgpack_bytes(record_of(cf)) == Some(bytes) && msgpack_record(bytes) == Some(record_of(cf)),
        (match back {
            Some(c) => Some(record_of(c)),
            None => None,
        }) == msgpack_record(bytes),
    ensures
        back is Some,
        record_of(back->0) == record_of(cf),
{
}

/// Whether some source is newer than the target: one carries a later time, or
/// a time is missing on either side.
pub open spec fn newer_than(sources: Seq<Option<u64>>, target: Option<u64>) -> bool {
    target is None || exists|i: int|
        0 <= i < sources.len() && (sources[i] is None || (#[trigger] sources[i])->0 > target->0)
}

/// Whether a descriptor is fresh: neither the emitted file nor the descriptor
/// file is older than any source.
pub open spec fn fresh(sources: Seq<Option<u64>>, output: Option<u64>, descriptor: Option<u64>) -> bool {
    !newer_than(sources, output) && !newer_than(sources, descriptor)
}

/// Whether some source is newer than the target; see [`newer_than`].
pub fn is_newer_than(sources: &Vec<Option<u64>>, target: Option<u64>) -> (b: bool)
    ensures
        b == newer_than(sources@, target),
{
    let t: u64 = match target {
        None => {
            return true;
        },
        Some(t) => t,
    };
    let mut i: usize = 0;
    while i < sources.len()
        invariant
            i <= sources.len(),
            target == Some(t),
            forall|k: int| 0 <= k < i ==> sources@[k] is Some && (#[trigger] sources@[k])->0 <= t,
        decreases sources.len() - i,
    {
        match sources[i] {
            None => {
                return true;
            },
            Some(s) => {
                if s > t {
                    return true;
                }
            },
        }
        i = i + 1;
    }
    false
}

/// What to do with a stored descriptor.
#[derive(Debug, PartialEq)]
pub enum CacheVerdict {
    /// Use the descriptor and do not emit the module again.
    Reuse(CFile),
    /// Delete the descriptor file and emit the module.
    Discard,
}

/// The verdict on what was read from a descriptor file (`None` where it could
/// not be read or decoded), given the modification times of the descriptor's
/// sources, of the emitted file and of the descriptor file.
pub fn judge_cache(
    stored: Option<CFile>,
    sources: &Vec<Option<u64>>,
    output: Option<u64>,
    descriptor: Option<u64>,
) -> (v: CacheVerdict)
    ensures
        v == (match stored {
            Some(cf) => if fresh(sources@, output, descriptor) {
                CacheVerdict::Reuse(cf)
            } else {
                CacheVerdict::Discard
            },
            None => CacheVerdict::Discard,
        }),
{
    match stored {
        None => CacheVerdict::Discard,
        Some(cf) => {
            if !is_newer_than(sources, output) && !is_newer_than(sources, descriptor) {
                CacheVerdict::Reuse(cf)
            } else {
                CacheVerdict::Discard
            }
        },
    }
}

/// The modification times of `paths` on a disk where `clock` holds the time of
/// each file that exists.
pub open spec fn stamps(paths: Seq<Seq<char>>, clock: Map<Seq<char>, u64>) -> Seq<Option<u64>> {
    Seq::new(
        paths.len(),
        |i: int|
            if clock.contains_key(paths[i]) {
                Some(clock[paths[i]])
            } else {
                None
            },
    )
}

/// Whether the descriptor of a module with these sources is fresh on a disk
/// with this clock.
pub open spec fn fresh_on(
    sources: Seq<Seq<char>>,
    output: Seq<char>,
    descriptor: Seq<char>,
    clock: Map<Seq<char>, u64>,
) -> bool {
    fresh(
        stamps(sources, clock),
        if clock.contains_key(output) {
            Some(clock[output])
        } else {
            None
        },
        if clock.contains_key(descriptor) {
            Some(clock[descriptor])
        } else {
            None
        },
    )
}

/// Touching a source file, that is giving it a time later than every time on
/// the disk, makes stale the descriptor of every module that lists the file,
/// and leaves every other descriptor as fresh or stale as it was.
pub proof fn lemma_touch_invalidates_its_entry(
    sources: Seq<Seq<char>>,
    output: Seq<char>,
    descriptor: Seq<char>,
    clock: Map<Seq<char>, u64>,
    touched: Seq<char>,
    now: u64,
)
    requires
        forall|p: Seq<char>| clock.contains_key(p) ==> #[trigger] clock[p] < now,
        touched != output,
        touched != descriptor,
    ensures
        sources.contains(touched) ==> !fresh_on(
            sources,
            output,
            descriptor,
            clock.insert(touched, now),
        ),
        !sources.contains(touched) ==> fresh_on(
            sources,
            output,
            descriptor,
            clock.insert(touched, now),
        ) == fresh_on(sources, output, descriptor, clock),
{
    let after = clock.insert(touched, now);
    if sources.contains(touched) {
        let i = choose|i: int| 0 <= i < sources.len() && sources[i] == touched;
        assert(stamps(sources, after)[i] == Some(now));
        if after.contains_key(output) {
            assert(stamps(sources, after)[i]->0 > after[output]);
        }
    } else {
        assert(stamps(sources, after) =~= stamps(sources, clock));
    }
}

/// A descriptor whose emitted file and descriptor file are no older than any
/// of its sources is fresh: a rebuild that touched nothing uses it.
pub proof fn lemma_untouched_is_reused(
    sources: Seq<Seq<char>>,
    output: Seq<char>,
    descriptor: Seq<char>,
    clock: Map<Seq<char>, u64>,
)
    requires
        clock.contains_key(output),
        clock.contains_key(descriptor),
        forall|i: int|
            0 <= i < sources.len() ==> clock.contains_key(#[trigger] sources[i]) && clock[sources[i]]
                <= clock[output] && clock[sources[i]] <= clock[descriptor],
    ensures
        fresh_on(sources, output, descriptor, clock),
{
    assert forall|i: int| 0 <= i < sources.len() implies (#[trigger] stamps(sources, clock)[i])
        == Some(clock[sources[i]]) by {}
}

} // verus!
