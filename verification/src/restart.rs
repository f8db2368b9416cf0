//! The files of a database, found again by their names.
//!
//! An SSTable is named `lsmlite.<timestamp>.sstable`, and a write-ahead log
//! `lsmlite.wal.<timestamp>.log`. Timestamps are milliseconds in decimal.
use crate::memtable::Blob;
use vstd::arithmetic::power::{lemma_pow0, lemma_pow_positive, pow};
use vstd::prelude::*;

verus! {

/// What stands before the timestamp in the name of an SSTable: `lsmlite.`.
pub open spec fn sstable_prefix() -> Seq<u8> {
    seq![0x6c, 0x73, 0x6d, 0x6c, 0x69, 0x74, 0x65, 0x2e]
}

/// What stands behind the timestamp in the name of an SSTable: `.sstable`.
pub open spec fn sstable_suffix() -> Seq<u8> {
    seq![0x2e, 0x73, 0x73, 0x74, 0x61, 0x62, 0x6c, 0x65]
}

/// What stands before the timestamp in the name of a log: `lsmlite.wal.`.
pub open spec fn wal_prefix() -> Seq<u8> {
    seq![0x6c, 0x73, 0x6d, 0x6c, 0x69, 0x74, 0x65, 0x2e, 0x77, 0x61, 0x6c, 0x2e]
}

/// What stands behind the timestamp in the name of a log: `.log`.
pub open spec fn wal_suffix() -> Seq<u8> {
    seq![0x2e, 0x6c, 0x6f, 0x67]
}

/// A number in decimal.
pub open spec fn decimal(n: nat) -> Seq<u8>
    decreases n,
{
    if n < 10 {
        seq![(48 + n) as u8]
    } else {
        decimal(n / 10).push((48 + n % 10) as u8)
    }
}

/// The number that decimal digits stand for; `None` where something else stands among
/// them.
pub open spec fn decimal_value(s: Seq<u8>) -> Option<nat>
    decreases s.len(),
{
    if s.len() == 0 {
        Some(0)
    } else {
        match decimal_value(s.drop_last()) {
            Some(value) => if 48 <= s.last() <= 57 {
                Some((10 * value + (s.last() - 48)) as nat)
            } else {
                None
            },
            None => None,
        }
    }
}

/// The timestamp in a file name, between the given prefix and suffix: at least one
/// digit, and no more than a `u64`.
pub open spec fn timestamp_in(name: Seq<u8>, prefix: Seq<u8>, suffix: Seq<u8>) -> Option<u64> {
    let digits = name.subrange(prefix.len() as int, name.len() - suffix.len());
    if name.len() <= prefix.len() + suffix.len() || !prefix.is_prefix_of(name)
        || !suffix.is_suffix_of(name) {
        None
    } else {
        match decimal_value(digits) {
            Some(value) => if value <= u64::MAX {
                Some(value as u64)
            } else {
                None
            },
            None => None,
        }
    }
}

/// A file, and the timestamp in its name.
#[derive(Debug)]
pub struct Artifact {
    pub filename: Blob,
    pub timestamp: u64,
}

/// What an [`Artifact`] says.
#[verifier::ext_equal]
pub struct ArtifactView {
    pub filename: Seq<u8>,
    pub timestamp: u64,
}

impl View for Artifact {
    type V = ArtifactView;

    open spec fn view(&self) -> ArtifactView {
        ArtifactView { filename: self.filename@, timestamp: self.timestamp }
    }
}

/// The files with `artifact` among them, behind those that are no newer.
pub open spec fn placed(files: Seq<ArtifactView>, artifact: ArtifactView) -> Seq<ArtifactView>
    decreases files.len(),
{
    if files.len() == 0 || files.last().timestamp <= artifact.timestamp {
        files.push(artifact)
    } else {
        placed(files.drop_last(), artifact).push(files.last())
    }
}

/// The files among `names` that have a timestamp between the given prefix and suffix,
/// oldest first.
pub open spec fn found(names: Seq<Seq<u8>>, prefix: Seq<u8>, suffix: Seq<u8>) -> Seq<ArtifactView>
    decreases names.len(),
{
    if names.len() == 0 {
        Seq::empty()
    } else {
        let front = found(names.drop_last(), prefix, suffix);
        match timestamp_in(names.last(), prefix, suffix) {
            Some(timestamp) => placed(front, ArtifactView { filename: names.last(), timestamp }),
            None => front,
        }
    }
}

/// Timestamps do not fall.
pub open spec fn oldest_first(files: Seq<ArtifactView>) -> bool {
    forall|i: int, j: int|
        0 <= i < j < files.len() ==> (#[trigger] files[i]).timestamp <= (
        #[trigger] files[j]).timestamp
}

proof fn lemma_placed(files: Seq<ArtifactView>, artifact: ArtifactView)
    requires
        oldest_first(files),
    ensures
        oldest_first(placed(files, artifact)),
        placed(files, artifact).to_multiset() == files.to_multiset().insert(artifact),
        forall|i: int|
            0 <= i < placed(files, artifact).len() ==> (#[trigger] placed(files, artifact)[i])
                == artifact || files.contains(placed(files, artifact)[i]),
    decreases files.len(),
{
    broadcast use vstd::seq_lib::group_to_multiset_ensures;

    let after = placed(files, artifact);
    if files.len() == 0 || files.last().timestamp <= artifact.timestamp {
        assert forall|i: int| 0 <= i < after.len() implies (#[trigger] after[i]) == artifact
            || files.contains(after[i]) by {
            if i < files.len() {
                assert(after[i] == files[i]);
            }
        }
        assert forall|i: int, j: int| 0 <= i < j < after.len() implies (
        #[trigger] after[i]).timestamp <= (#[trigger] after[j]).timestamp by {
            assert(after[i] == files[i]);
            if j < files.len() {
                assert(after[j] == files[j]);
            } else if i < files.len() - 1 {
                assert(files[i].timestamp <= files[files.len() - 1].timestamp);
            }
        }
    } else {
        let front = files.drop_last();
        let rest = placed(front, artifact);
        assert forall|i: int, j: int| 0 <= i < j < front.len() implies (
        #[trigger] front[i]).timestamp <= (#[trigger] front[j]).timestamp by {
            assert(files[i].timestamp <= files[j].timestamp);
        }
        lemma_placed(front, artifact);
        assert(front.push(files.last()) =~= files);
        assert(after.to_multiset() =~= files.to_multiset().insert(artifact));
        assert forall|i: int| 0 <= i < after.len() implies (#[trigger] after[i]) == artifact
            || files.contains(after[i]) by {
            if i < rest.len() {
                assert(after[i] == rest[i]);
                if rest[i] != artifact {
                    let n = choose|n: int| 0 <= n < front.len() && front[n] == rest[i];
                    assert(files[n] == rest[i]);
                }
            } else {
                assert(files[files.len() - 1] == after[i]);
            }
        }
        assert forall|i: int, j: int| 0 <= i < j < after.len() implies (
        #[trigger] after[i]).timestamp <= (#[trigger] after[j]).timestamp by {
            assert(after[i] == rest[i]);
            if j < rest.len() {
                assert(after[j] == rest[j]);
            } else if rest[i] != artifact {
                let n = choose|n: int| 0 <= n < front.len() && front[n] == rest[i];
                assert(files[n].timestamp <= files[files.len() - 1].timestamp);
            }
        }
    }
}

/// The files among `names` that have a timestamp between the given prefix and suffix,
/// in the order of `names`.
pub open spec fn named(names: Seq<Seq<u8>>, prefix: Seq<u8>, suffix: Seq<u8>) -> Seq<ArtifactView>
    decreases names.len(),
{
    if names.len() == 0 {
        Seq::empty()
    } else {
        let front = named(names.drop_last(), prefix, suffix);
        match timestamp_in(names.last(), prefix, suffix) {
            Some(timestamp) => front.push(ArtifactView { filename: names.last(), timestamp }),
            None => front,
        }
    }
}

/// All files are found, in the order of their timestamps.
pub proof fn lemma_found(names: Seq<Seq<u8>>, prefix: Seq<u8>, suffix: Seq<u8>)
    ensures
        oldest_first(found(names, prefix, suffix)),
        found(names, prefix, suffix).to_multiset() == named(names, prefix, suffix).to_multiset(),
    decreases names.len(),
{
    broadcast use vstd::seq_lib::group_to_multiset_ensures;

    if names.len() > 0 {
        lemma_found(names.drop_last(), prefix, suffix);
        if let Some(timestamp) = timestamp_in(names.last(), prefix, suffix) {
            lemma_placed(
                found(names.drop_last(), prefix, suffix),
                ArtifactView { filename: names.last(), timestamp },
            );
        }
    }
}

proof fn lemma_decimal_value(n: nat)
    ensures
        decimal(n).len() > 0,
        decimal_value(decimal(n)) == Some(n),
    decreases n,
{
    let s = decimal(n);
    if n < 10 {
        assert(s.drop_last() =~= Seq::<u8>::empty());
        assert(decimal_value(s.drop_last()) == Some(0nat));
    } else {
        lemma_decimal_value(n / 10);
        assert(s.drop_last() =~= decimal(n / 10));
    }
}

/// The timestamp that a name was made with is read from it.
pub proof fn lemma_timestamp_of_name(timestamp: u64, prefix: Seq<u8>, suffix: Seq<u8>)
    ensures
        timestamp_in(prefix + decimal(timestamp as nat) + suffix, prefix, suffix) == Some(
            timestamp,
        ),
{
    let digits = decimal(timestamp as nat);
    let name = prefix + digits + suffix;
    lemma_decimal_value(timestamp as nat);
    assert(prefix.is_prefix_of(name)) by {
        assert(prefix =~= name.subrange(0, prefix.len() as int));
    }
    assert(suffix.is_suffix_of(name)) by {
        assert(suffix =~= name.subrange(name.len() - suffix.len(), name.len() as int));
    }
    assert(name.subrange(prefix.len() as int, name.len() - suffix.len()) =~= digits);
}

/// Decimal digits, and nothing else, stand for a number.
pub proof fn lemma_decimal_digits(s: Seq<u8>)
    ensures
        decimal_value(s) is Some <==> forall|i: int| 0 <= i < s.len() ==> 48 <= #[trigger] s[i]
            <= 57,
    decreases s.len(),
{
    if s.len() > 0 {
        let front = s.drop_last();
        lemma_decimal_digits(front);
        if decimal_value(s) is Some {
            assert forall|i: int| 0 <= i < s.len() implies 48 <= #[trigger] s[i] <= 57 by {
                if i < front.len() {
                    assert(front[i] == s[i]);
                }
            }
        }
        if forall|i: int| 0 <= i < s.len() ==> 48 <= #[trigger] s[i] <= 57 {
            assert forall|i: int| 0 <= i < front.len() implies 48 <= #[trigger] front[i] <= 57 by {
                assert(front[i] == s[i]);
            }
            assert(s.last() == s[s.len() - 1]);
        }
    }
}

/// The more significant digits of a number come first, and each weighs ten times the one
/// behind it. One digit stands for what it is above `0`.
pub proof fn lemma_decimal_concat(front: Seq<u8>, back: Seq<u8>)
    requires
        decimal_value(front) is Some,
        decimal_value(back) is Some,
    ensures
        decimal_value(front + back) == Some(
            (decimal_value(front)->0 * pow(10, back.len()) + decimal_value(back)->0) as nat,
        ),
        front.len() == 1 ==> decimal_value(front)->0 == front[0] - 48,
    decreases back.len(),
{
    if front.len() == 1 {
        assert(decimal_value(front.drop_last()) == Some(0nat));
    }
    lemma_pow_positive(10, back.len());
    if back.len() == 0 {
        assert(front + back =~= front);
        lemma_pow0(10);
    } else {
        let rest = back.drop_last();
        assert((front + back).drop_last() =~= front + rest);
        lemma_decimal_concat(front, rest);
        let f = decimal_value(front)->0 as int;
        let p = pow(10, rest.len());
        lemma_pow_positive(10, rest.len());
        assert(pow(10, back.len()) == 10 * p) by {
            reveal(pow);
        }
        assert(10 * (f * p) == f * (10 * p)) by (nonlinear_arith);
        assert(f * p >= 0) by (nonlinear_arith)
            requires
                f >= 0,
                p >= 0,
        ;
    }
}

/// A number is written without zeros before it.
pub proof fn lemma_decimal_canonical(n: nat)
    ensures
        n > 0 ==> decimal(n)[0] != 48,
        n == 0 ==> decimal(n) == seq![48u8],
        decimal_value(decimal(n)) == Some(n),
    decreases n,
{
    lemma_decimal_value(n);
    if n >= 10 {
        lemma_decimal_value(n / 10);
        lemma_decimal_canonical(n / 10);
    }
}

/// Only names of the database are taken: a name with a timestamp is the prefix, then
/// digits that stand for the timestamp, then the suffix.
pub proof fn lemma_timestamp_in(name: Seq<u8>, prefix: Seq<u8>, suffix: Seq<u8>)
    ensures
        timestamp_in(name, prefix, suffix) matches Some(timestamp) ==> {
            let digits = name.subrange(prefix.len() as int, name.len() - suffix.len());
            &&& prefix.len() + suffix.len() < name.len()
            &&& name.subrange(0, prefix.len() as int) == prefix
            &&& name.subrange(name.len() - suffix.len(), name.len() as int) == suffix
            &&& name == prefix + digits + suffix
            &&& forall|i: int| 0 <= i < digits.len() ==> 48 <= #[trigger] digits[i] <= 57
            &&& decimal_value(digits) == Some(timestamp as nat)
        },
{
    if timestamp_in(name, prefix, suffix) is Some {
        let digits = name.subrange(prefix.len() as int, name.len() - suffix.len());
        lemma_decimal_digits(digits);
        assert(name =~= prefix + digits + suffix);
    }
}

/// Every name of the database is taken: where digits stand between the prefix and the
/// suffix, and for no more than a `u64`, the name has the timestamp that they stand for.
pub proof fn lemma_timestamp_of_digits(prefix: Seq<u8>, digits: Seq<u8>, suffix: Seq<u8>)
    requires
        digits.len() > 0,
        forall|i: int| 0 <= i < digits.len() ==> 48 <= #[trigger] digits[i] <= 57,
    ensures
        decimal_value(digits) matches Some(value) && timestamp_in(
            prefix + digits + suffix,
            prefix,
            suffix,
        ) == if value <= u64::MAX {
            Some(value as u64)
        } else {
            None
        },
{
    let name = prefix + digits + suffix;
    lemma_decimal_digits(digits);
    assert(prefix.is_prefix_of(name)) by {
        assert(prefix =~= name.subrange(0, prefix.len() as int));
    }
    assert(suffix.is_suffix_of(name)) by {
        assert(suffix =~= name.subrange(name.len() - suffix.len(), name.len() as int));
    }
    assert(name.subrange(prefix.len() as int, name.len() - suffix.len()) =~= digits);
}

/// A name is found as often as it is there, with its timestamp if it has one, and
/// nothing else is found.
pub proof fn lemma_found_names(
    names: Seq<Seq<u8>>,
    prefix: Seq<u8>,
    suffix: Seq<u8>,
    artifact: ArtifactView,
)
    ensures
        found(names, prefix, suffix).to_multiset().count(artifact) == if timestamp_in(
            artifact.filename,
            prefix,
            suffix,
        ) == Some(artifact.timestamp) {
            names.to_multiset().count(artifact.filename)
        } else {
            0
        },
        found(names, prefix, suffix).contains(artifact) <==> names.contains(artifact.filename)
            && timestamp_in(artifact.filename, prefix, suffix) == Some(artifact.timestamp),
    decreases names.len(),
{
    broadcast use vstd::seq_lib::group_to_multiset_ensures;

    let all = found(names, prefix, suffix);
    if names.len() > 0 {
        let front = names.drop_last();
        lemma_found_names(front, prefix, suffix, artifact);
        assert(names =~= front.push(names.last()));
        lemma_found(front, prefix, suffix);
        if let Some(timestamp) = timestamp_in(names.last(), prefix, suffix) {
            lemma_placed(
                found(front, prefix, suffix),
                ArtifactView { filename: names.last(), timestamp },
            );
        }
    }
    assert(all.contains(artifact) <==> all.to_multiset().count(artifact) > 0);
    assert(names.contains(artifact.filename) <==> names.to_multiset().count(artifact.filename) > 0);
}

/// Whether `bytes` stand in `name` at position `at`.
fn stands_at(name: &[u8], at: usize, bytes: &[u8]) -> (stands: bool)
    requires
        at + bytes.len() <= name.len(),
    ensures
        stands == (name@.subrange(at as int, at + bytes@.len()) == bytes@),
{
    let mut i: usize = 0;
    while i < bytes.len()
        invariant
            i <= bytes@.len(),
            at + bytes.len() <= name.len(),
            forall|n: int| 0 <= n < i ==> name@[at + n] == #[trigger] bytes@[n],
        decreases bytes@.len() - i,
    {
        if name[at + i] != bytes[i] {
            assert(name@.subrange(at as int, at + bytes@.len())[i as int] != bytes@[i as int]);
            return false;
        }
        i = i + 1;
    }
    assert(name@.subrange(at as int, at + bytes@.len()) =~= bytes@);
    true
}

/// Some digits stand for a number of their own; more of them never for a smaller one.
proof fn lemma_decimal_value_take(s: Seq<u8>, n: int)
    requires
        0 <= n <= s.len(),
    ensures
        decimal_value(s) matches Some(value) ==> decimal_value(s.take(n)) matches Some(front)
            && front <= value,
    decreases s.len() - n,
{
    if n < s.len() {
        lemma_decimal_value_take(s, n + 1);
        assert(s.take(n + 1).drop_last() =~= s.take(n));
    } else {
        assert(s.take(n) =~= s);
    }
}

/// The timestamp in a file name, between the given prefix and suffix.
fn parse_timestamp(name: &[u8], prefix: &[u8], suffix: &[u8]) -> (timestamp: Option<u64>)
    requires
        prefix.len() + suffix.len() <= usize::MAX,
    ensures
        timestamp == timestamp_in(name@, prefix@, suffix@),
{
    if name.len() <= prefix.len() + suffix.len() {
        return None;
    }
    let end: usize = name.len() - suffix.len();
    if !stands_at(name, 0, prefix) || !stands_at(name, end, suffix) {
        return None;
    }
    let ghost digits = name@.subrange(prefix@.len() as int, end as int);
    let mut value: u64 = 0;
    let mut i: usize = prefix.len();
    assert(digits.take(0) =~= Seq::<u8>::empty());
    while i < end
        invariant
            prefix@.len() <= i <= end,
            end == name@.len() - suffix@.len(),
            digits == name@.subrange(prefix@.len() as int, end as int),
            decimal_value(digits.take(i - prefix@.len())) == Some(value as nat),
        decreases end - i,
    {
        let digit: u8 = name[i];
        let ghost next = digits.take(i + 1 - prefix@.len());
        proof {
            assert(next.drop_last() =~= digits.take(i - prefix@.len()));
            assert(next.last() == digit);
            lemma_decimal_value_take(digits, i + 1 - prefix@.len());
        }
        if digit < 48 || digit > 57 {
            return None;
        }
        let more: u128 = 10 * value as u128 + (digit - 48) as u128;
        if more > u64::MAX as u128 {
            return None;
        }
        value = more as u64;
        i = i + 1;
    }
    assert(digits.take(digits.len() as int) =~= digits);
    Some(value)
}

/// Appends a number in decimal.
fn push_decimal(name: &mut Blob, n: u64)
    ensures
        final(name)@ == old(name)@ + decimal(n as nat),
    decreases n,
{
    if n >= 10 {
        push_decimal(name, n / 10);
    }
    name.push(48 + (n % 10) as u8);
    assert(name@ =~= old(name)@ + decimal(n as nat));
}

fn sstable_prefix_bytes() -> (bytes: Blob)
    ensures
        bytes@ == sstable_prefix(),
{
    let bytes: Blob = vec![0x6c, 0x73, 0x6d, 0x6c, 0x69, 0x74, 0x65, 0x2e];
    assert(bytes@ =~= sstable_prefix());
    bytes
}

fn sstable_suffix_bytes() -> (bytes: Blob)
    ensures
        bytes@ == sstable_suffix(),
{
    let bytes: Blob = vec![0x2e, 0x73, 0x73, 0x74, 0x61, 0x62, 0x6c, 0x65];
    assert(bytes@ =~= sstable_suffix());
    bytes
}

fn wal_prefix_bytes() -> (bytes: Blob)
    ensures
        bytes@ == wal_prefix(),
{
    let bytes: Blob = vec![
        0x6c, 0x73, 0x6d, 0x6c, 0x69, 0x74, 0x65, 0x2e, 0x77, 0x61, 0x6c, 0x2e,
    ];
    assert(bytes@ =~= wal_prefix());
    bytes
}

fn wal_suffix_bytes() -> (bytes: Blob)
    ensures
        bytes@ == wal_suffix(),
{
    let bytes: Blob = vec![0x2e, 0x6c, 0x6f, 0x67];
    assert(bytes@ =~= wal_suffix());
    bytes
}

/// The name of the SSTable file with the given timestamp.
pub fn sstable_file_name(timestamp: u64) -> (name: Blob)
    ensures
        name@ == sstable_prefix() + decimal(timestamp as nat) + sstable_suffix(),
{
    let mut name = sstable_prefix_bytes();
    push_decimal(&mut name, timestamp);
    let mut suffix = sstable_suffix_bytes();
    name.append(&mut suffix);
    name
}

/// The name of the log file with the given timestamp.
pub fn wal_file_name(timestamp: u64) -> (name: Blob)
    ensures
        name@ == wal_prefix() + decimal(timestamp as nat) + wal_suffix(),
{
    let mut name = wal_prefix_bytes();
    push_decimal(&mut name, timestamp);
    let mut suffix = wal_suffix_bytes();
    name.append(&mut suffix);
    name
}

/// The files that a restart goes on with.
#[derive(Debug)]
pub struct RestartState {
    /// The SSTables, newest first.
    pub sstables: Vec<Artifact>,
    /// The logs, oldest first.
    pub wals: Vec<Artifact>,
}

/// What artifacts say, one by one.
pub open spec fn artifacts(files: Seq<Artifact>) -> Seq<ArtifactView> {
    files.map_values(|artifact: Artifact| artifact@)
}

/// Puts an artifact among files that are sorted, oldest first.
fn place(files: &mut Vec<Artifact>, artifact: Artifact)
    ensures
        artifacts(final(files)@) == placed(artifacts(old(files)@), artifact@),
    decreases old(files)@.len(),
{
    let ghost before = artifacts(files@);
    match files.pop() {
        None => {
            files.push(artifact);
            assert(artifacts(files@) =~= placed(before, artifact@));
        },
        Some(last) => {
            let ghost front = files@;
            assert(before.last() == last@);
            assert(before.drop_last() =~= artifacts(front));
            if last.timestamp <= artifact.timestamp {
                files.push(last);
                files.push(artifact);
                assert(artifacts(files@) =~= before.push(artifact@));
            } else {
                place(files, artifact);
                let ghost placed_front = files@;
                files.push(last);
                assert(artifacts(files@) =~= artifacts(placed_front).push(last@));
            }
        },
    }
}

/// The artifacts among `names` with a timestamp between the given prefix and suffix,
/// oldest first.
fn find_artifacts(names: &Vec<Blob>, prefix: &[u8], suffix: &[u8]) -> (files: Vec<Artifact>)
    requires
        prefix.len() + suffix.len() <= usize::MAX,
    ensures
        artifacts(files@) == found(names@.map_values(|name: Blob| name@), prefix@, suffix@),
{
    let ghost views = names@.map_values(|name: Blob| name@);
    let mut files: Vec<Artifact> = Vec::new();
    let mut i: usize = 0;
    assert(views.take(0) =~= Seq::<Seq<u8>>::empty());
    assert(artifacts(files@) =~= Seq::<ArtifactView>::empty());
    while i < names.len()
        invariant
            i <= names@.len(),
            prefix.len() + suffix.len() <= usize::MAX,
            views == names@.map_values(|name: Blob| name@),
            artifacts(files@) == found(views.take(i as int), prefix@, suffix@),
        decreases names@.len() - i,
    {
        let ghost next = views.take(i + 1);
        assert(next.drop_last() =~= views.take(i as int));
        assert(next.last() == names@[i as int]@);
        if let Some(timestamp) = parse_timestamp(names[i].as_slice(), prefix, suffix) {
            let filename: Blob = vstd::slice::slice_to_vec(names[i].as_slice());
            place(&mut files, Artifact { filename, timestamp });
        }
        i = i + 1;
    }
    assert(views.take(i as int) =~= views);
    files
}

/// A name begins with `prefix` and ends with `suffix`, and something stands between.
pub open spec fn is_between(name: Seq<u8>, prefix: Seq<u8>, suffix: Seq<u8>) -> bool {
    &&& prefix.len() + suffix.len() < name.len()
    &&& name.subrange(0, prefix.len() as int) == prefix
    &&& name.subrange(name.len() - suffix.len(), name.len() as int) == suffix
}

/// Sorts the names of the files in a directory: the SSTables newest first, the logs
/// oldest first. Other files are passed over.
pub fn get_restart_state(names: &Vec<Blob>) -> (state: RestartState)
    ensures
        ({
            let views = names@.map_values(|name: Blob| name@);
            &&& artifacts(state.sstables@) == found(
                views,
                sstable_prefix(),
                sstable_suffix(),
            ).reverse()
            &&& artifacts(state.wals@) == found(views, wal_prefix(), wal_suffix())
        }),
        forall|i: int, j: int|
            0 <= i < j < state.sstables@.len() ==> (#[trigger] state.sstables@[i]).timestamp >= (
            #[trigger] state.sstables@[j]).timestamp,
        forall|i: int, j: int|
            0 <= i < j < state.wals@.len() ==> (#[trigger] state.wals@[i]).timestamp <= (
            #[trigger] state.wals@[j]).timestamp,
        forall|i: int|
            0 <= i < state.sstables@.len() ==> is_between(
                (#[trigger] state.sstables@[i]).filename@,
                seq![0x6cu8, 0x73, 0x6d, 0x6c, 0x69, 0x74, 0x65, 0x2e],
                seq![0x2eu8, 0x73, 0x73, 0x74, 0x61, 0x62, 0x6c, 0x65],
            ) && decimal_value(
                state.sstables@[i].filename@.subrange(8, state.sstables@[i].filename@.len() - 8),
            ) == Some(state.sstables@[i].timestamp as nat),
        forall|i: int|
            0 <= i < state.wals@.len() ==> is_between(
                (#[trigger] state.wals@[i]).filename@,
                seq![0x6cu8, 0x73, 0x6d, 0x6c, 0x69, 0x74, 0x65, 0x2e, 0x77, 0x61, 0x6c, 0x2e],
                seq![0x2eu8, 0x6c, 0x6f, 0x67],
            ) && decimal_value(
                state.wals@[i].filename@.subrange(12, state.wals@[i].filename@.len() - 4),
            ) == Some(state.wals@[i].timestamp as nat),
{
    let wals = find_artifacts(
        names,
        wal_prefix_bytes().as_slice(),
        wal_suffix_bytes().as_slice(),
    );
    let mut oldest_first = find_artifacts(
        names,
        sstable_prefix_bytes().as_slice(),
        sstable_suffix_bytes().as_slice(),
    );
    let ghost sorted = artifacts(oldest_first@);
    let mut sstables: Vec<Artifact> = Vec::new();
    assert(artifacts(sstables@) =~= Seq::<ArtifactView>::empty());
    while oldest_first.len() > 0
        invariant
            oldest_first@.len() + sstables@.len() == sorted.len(),
            artifacts(oldest_first@) == sorted.take(oldest_first@.len() as int),
            artifacts(sstables@) == sorted.skip(oldest_first@.len() as int).reverse(),
        decreases oldest_first@.len(),
    {
        let ghost n = oldest_first@.len() as int;
        assert(artifacts(oldest_first@)[n - 1] == sorted[n - 1]);
        let ghost done = artifacts(sstables@);
        let newest = oldest_first.pop().unwrap();
        sstables.push(newest);
        assert(artifacts(oldest_first@) =~= sorted.take(n - 1));
        assert(artifacts(sstables@) =~= done.push(sorted[n - 1]));
        assert(sorted.skip(n - 1).reverse() =~= sorted.skip(n).reverse().push(sorted[n - 1]));
    }
    assert(artifacts(sstables@) =~= sorted.reverse());
    proof {
        let views = names@.map_values(|name: Blob| name@);
        lemma_found(views, sstable_prefix(), sstable_suffix());
        lemma_found(views, wal_prefix(), wal_suffix());
        assert forall|i: int, j: int| 0 <= i < j < sstables@.len() implies (
        #[trigger] sstables@[i]).timestamp >= (#[trigger] sstables@[j]).timestamp by {
            assert(artifacts(sstables@)[i] == sorted[sorted.len() - 1 - i]);
            assert(artifacts(sstables@)[j] == sorted[sorted.len() - 1 - j]);
        }
        assert forall|i: int, j: int| 0 <= i < j < wals@.len() implies (
        #[trigger] wals@[i]).timestamp <= (#[trigger] wals@[j]).timestamp by {
            assert(artifacts(wals@)[i].timestamp <= artifacts(wals@)[j].timestamp);
        }
        assert forall|i: int| 0 <= i < sstables@.len() implies is_between(
            (#[trigger] sstables@[i]).filename@,
            sstable_prefix(),
            sstable_suffix(),
        ) && decimal_value(
            sstables@[i].filename@.subrange(8, sstables@[i].filename@.len() - 8),
        ) == Some(sstables@[i].timestamp as nat) by {
            assert(artifacts(sstables@)[i] == sorted[sorted.len() - 1 - i]);
            lemma_found_names(views, sstable_prefix(), sstable_suffix(), sstables@[i]@);
            lemma_timestamp_in(sstables@[i].filename@, sstable_prefix(), sstable_suffix());
        }
        assert forall|i: int| 0 <= i < wals@.len() implies is_between(
            (#[trigger] wals@[i]).filename@,
            wal_prefix(),
            wal_suffix(),
        ) && decimal_value(wals@[i].filename@.subrange(12, wals@[i].filename@.len() - 4)) == Some(
            wals@[i].timestamp as nat,
        ) by {
            assert(artifacts(wals@)[i] == wals@[i]@);
            assert(artifacts(wals@).contains(wals@[i]@));
            lemma_found_names(views, wal_prefix(), wal_suffix(), wals@[i]@);
            lemma_timestamp_in(wals@[i].filename@, wal_prefix(), wal_suffix());
        }
    }
    RestartState { sstables, wals }
}

/// Files with the same timestamp keep the order in which they were found: a file is put
/// behind every one that is no newer, and before every one that is newer.
pub proof fn lemma_placed_behind(files: Seq<ArtifactView>, artifact: ArtifactView) -> (n: int)
    requires
        oldest_first(files),
    ensures
        0 <= n <= files.len(),
        placed(files, artifact) == files.take(n) + seq![artifact] + files.skip(n),
        forall|i: int| 0 <= i < n ==> (#[trigger] files[i]).timestamp <= artifact.timestamp,
        forall|i: int|
            n <= i < files.len() ==> artifact.timestamp < (#[trigger] files[i]).timestamp,
    decreases files.len(),
{
    let last = files.len() - 1;
    if files.len() == 0 || files.last().timestamp <= artifact.timestamp {
        assert(placed(files, artifact) =~= files.take(files.len() as int) + seq![artifact]
            + files.skip(files.len() as int));
        assert forall|i: int| 0 <= i < files.len() implies (#[trigger] files[i]).timestamp
            <= artifact.timestamp by {
            if i < last {
                assert(files[i].timestamp <= files[last].timestamp);
            }
        }
        files.len() as int
    } else {
        let front = files.drop_last();
        assert(oldest_first(front)) by {
            assert forall|i: int, j: int| 0 <= i < j < front.len() implies (
            #[trigger] front[i]).timestamp <= (#[trigger] front[j]).timestamp by {
                assert(files[i].timestamp <= files[j].timestamp);
            }
        }
        let n = lemma_placed_behind(front, artifact);
        assert(placed(files, artifact) =~= files.take(n) + seq![artifact] + files.skip(n));
        assert forall|i: int| 0 <= i < n implies (#[trigger] files[i]).timestamp
            <= artifact.timestamp by {
            assert(front[i] == files[i]);
        }
        assert forall|i: int| n <= i < files.len() implies artifact.timestamp < (
        #[trigger] files[i]).timestamp by {
            if i < last {
                assert(front[i] == files[i]);
            }
        }
        n
    }
}

} // verus!
