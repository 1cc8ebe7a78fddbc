use vstd::prelude::*;
use vstd::string::*;

verus! {

// The metadata inspector looks at one directory's immediate entries. The
// caller hands over, for each entry it could read, the raw facts the
// filesystem reported (name, byte length, timestamps, the read-only bit);
// entries it could not read come in as `None` and are silently skipped,
// while a directory that could not be listed at all fails the whole
// operation. Both behaviours are stated in `inspect_listing`'s contract.

/// A point in time as the filesystem reports it: whole seconds since the
/// Unix epoch (negative for earlier times) and the nanoseconds within that
/// second.
#[derive(Clone, Copy)]
pub struct Timestamp {
    pub secs: i64,
    pub nanos: u32,
}

/// The range of timestamps the UTC formatter is known to accept: within
/// about 250,000 years of the epoch, with a well-formed nanosecond part.
pub open spec fn ts_formattable(t: Timestamp) -> bool {
    -8_000_000_000_000 <= t.secs <= 8_000_000_000_000 && t.nanos < 1_000_000_000
}

/// The UTC rendering of a Unix timestamp, e.g. "2015-05-15 00:00:00 UTC".
pub uninterp spec fn utc_text(secs: i64, nanos: u32) -> Seq<char>;

/// Relies on chrono's `DateTime::<Utc>::from_timestamp` and on the
/// `Display` of `DateTime<Utc>`: the rendering depends on the seconds and
/// nanoseconds alone, and `from_timestamp` returns `Some` whenever the
/// seconds lie within about 250,000 years of the epoch and the nanoseconds
/// are below one billion.
#[verifier::external_body]
fn format_utc(secs: i64, nanos: u32) -> (r: Option<String>)
    ensures
        r matches Some(s) ==> s@ == utc_text(secs, nanos),
        (-8_000_000_000_000 <= secs <= 8_000_000_000_000 && nanos < 1_000_000_000) ==> r is Some,
{
    chrono::DateTime::<chrono::Utc>::from_timestamp(secs, nanos).map(|d| d.to_string())
}

/// The raw facts about one directory entry, as the caller read them from
/// the filesystem: the entry's name, its length in bytes, its three
/// timestamps where the platform offers them, and its read-only bit.
pub struct RawEntry {
    pub name: String,
    pub len: u64,
    pub created: Option<Timestamp>,
    pub modified: Option<Timestamp>,
    pub accessed: Option<Timestamp>,
    pub read_only: bool,
}

/// One record of the inspector's answer.
pub struct FSMeta {
    pub name: String,
    pub extension: String,
    pub created: String,
    pub modified: String,
    pub accessed: String,
    pub read_only: bool,
    pub size: u64,
}

/// `i` points at the last dot of `name`.
pub open spec fn is_last_dot(name: Seq<char>, i: int) -> bool {
    &&& 0 <= i < name.len()
    &&& name[i] == '.'
    &&& forall|j: int| i < j < name.len() ==> name[j] != '.'
}

/// A name has an extension when its last dot is preceded by at least one
/// character; a lone leading dot (".bashrc") gives none.
pub open spec fn has_extension(name: Seq<char>) -> bool {
    exists|i: int| is_last_dot(name, i) && 0 < i
}

/// The extension of a name: what follows the last dot, empty when there is
/// no dot or only a leading one.
pub open spec fn spec_extension(name: Seq<char>) -> Seq<char> {
    if has_extension(name) {
        let i = choose|i: int| is_last_dot(name, i) && 0 < i;
        name.subrange(i + 1, name.len() as int)
    } else {
        Seq::empty()
    }
}

/// A name has at most one last dot.
proof fn lemma_last_dot_unique(name: Seq<char>, a: int, b: int)
    requires
        is_last_dot(name, a),
        is_last_dot(name, b),
    ensures
        a == b,
{
    if a < b {
        assert(name[b] != '.');
    }
    if b < a {
        assert(name[a] != '.');
    }
}

/// Extracts the extension of a file name: the part after the last dot,
/// empty when there is no dot or only a leading one.
pub fn extension_of(name: &str) -> (r: String)
    ensures
        r@ == spec_extension(name@),
{
    let n = name.unicode_len();
    let mut i: usize = 0;
    let mut last: usize = 0;
    let mut found = false;
    while i < n
        invariant
            i <= n,
            n == name@.len(),
            found ==> last < i && name@[last as int] == '.',
            found ==> forall|j: int| last < j < i ==> name@[j] != '.',
            !found ==> forall|j: int| 0 <= j < i ==> name@[j] != '.',
        decreases n - i,
    {
        if name.get_char(i) == '.' {
            last = i;
            found = true;
        }
        i = i + 1;
    }
    if found && last > 0 {
        proof {
            assert(is_last_dot(name@, last as int));
            assert(has_extension(name@));
            let w = choose|k: int| is_last_dot(name@, k) && 0 < k;
            lemma_last_dot_unique(name@, w, last as int);
        }
        let ext = name.substring_char(last + 1, n);
        ext.to_owned()
    } else {
        proof {
            if has_extension(name@) {
                let w = choose|k: int| is_last_dot(name@, k) && 0 < k;
                if found {
                    lemma_last_dot_unique(name@, w, last as int);
                } else {
                    assert(name@[w] == '.');
                }
            }
        }
        String::new()
    }
}

/// All three timestamps of an entry were available.
pub open spec fn raw_complete(e: RawEntry) -> bool {
    e.created is Some && e.modified is Some && e.accessed is Some
}

/// All three timestamps are available and known formattable.
pub open spec fn raw_formattable(e: RawEntry) -> bool {
    &&& e.created matches Some(t) && ts_formattable(t)
    &&& e.modified matches Some(t) && ts_formattable(t)
    &&& e.accessed matches Some(t) && ts_formattable(t)
}

/// What the inspector's record says about the raw entry it came from:
/// the same name and read-only bit, the extension after the last dot, the
/// size in whole kilobytes, and the three timestamps rendered as UTC text.
pub open spec fn meta_matches(e: RawEntry, m: FSMeta) -> bool {
    &&& m.name@ == e.name@
    &&& m.extension@ == spec_extension(e.name@)
    &&& (e.created matches Some(t) && m.created@ == utc_text(t.secs, t.nanos))
    &&& (e.modified matches Some(t) && m.modified@ == utc_text(t.secs, t.nanos))
    &&& (e.accessed matches Some(t) && m.accessed@ == utc_text(t.secs, t.nanos))
    &&& m.read_only == e.read_only
    &&& m.size == e.len / 1024
}

/// Why the inspector failed.
#[derive(Debug)]
pub enum InspectError {
    /// The directory itself could not be listed.
    Unlistable,
    /// Some entry lacks a creation, modification or access time.
    TimestampUnavailable,
    /// Some entry carries a timestamp the UTC formatter rejected.
    TimestampOutOfRange,
}

impl FSMeta {
    /// Size in whole kilobytes: the byte length divided by 1024,
    /// truncating.
    pub fn size_kb(bytes: u64) -> (kb: u64)
        ensures
            kb == bytes / 1024,
    {
        bytes / 1024
    }

    /// Builds the record for one entry; fails when a timestamp is missing
    /// or the UTC formatter rejects one, and then reports which.
    pub fn from_raw(e: &RawEntry) -> (r: Result<FSMeta, InspectError>)
        ensures
            r matches Ok(m) ==> raw_complete(*e) && meta_matches(*e, m),
            raw_formattable(*e) ==> r is Ok,
            r == Err::<FSMeta, InspectError>(InspectError::TimestampUnavailable) ==> !raw_complete(
                *e,
            ),
            r matches Err(er) ==> (er == InspectError::TimestampUnavailable || er
                == InspectError::TimestampOutOfRange) && !raw_formattable(*e),
    {
        let created = match e.created {
            Option::Some(t) => t,
            Option::None => {
                return Result::Err(InspectError::TimestampUnavailable);
            },
        };
        let modified = match e.modified {
            Option::Some(t) => t,
            Option::None => {
                return Result::Err(InspectError::TimestampUnavailable);
            },
        };
        let accessed = match e.accessed {
            Option::Some(t) => t,
            Option::None => {
                return Result::Err(InspectError::TimestampUnavailable);
            },
        };
        let created_text = match format_utc(created.secs, created.nanos) {
            Option::Some(s) => s,
            Option::None => {
                return Result::Err(InspectError::TimestampOutOfRange);
            },
        };
        let modified_text = match format_utc(modified.secs, modified.nanos) {
            Option::Some(s) => s,
            Option::None => {
                return Result::Err(InspectError::TimestampOutOfRange);
            },
        };
        let accessed_text = match format_utc(accessed.secs, accessed.nanos) {
            Option::Some(s) => s,
            Option::None => {
                return Result::Err(InspectError::TimestampOutOfRange);
            },
        };
        Result::Ok(
            FSMeta {
                name: e.name.clone(),
                extension: extension_of(e.name.as_str()),
                created: created_text,
                modified: modified_text,
                accessed: accessed_text,
                read_only: e.read_only,
                size: Self::size_kb(e.len),
            },
        )
    }
}

/// The entries that could be read, in order, with the unreadable ones
/// dropped.
pub open spec fn readables(s: Seq<Option<RawEntry>>) -> Seq<RawEntry>
    decreases s.len(),
{
    if s.len() == 0 {
        Seq::empty()
    } else {
        let rest = readables(s.drop_last());
        match s.last() {
            Option::Some(e) => rest.push(e),
            Option::None => rest,
        }
    }
}

/// Inspects one directory from the outcome of listing it: `None` when the
/// directory could not be listed (the whole operation then fails, yielding
/// no partial answer), otherwise one slot per entry, `None` where the entry
/// itself could not be read (such entries are skipped). On success there is
/// exactly one record per readable entry, in order.
pub fn inspect_listing(outcome: Option<Vec<Option<RawEntry>>>) -> (r: Result<
    Vec<FSMeta>,
    InspectError,
>)
    ensures
        r == Err::<Vec<FSMeta>, InspectError>(InspectError::Unlistable) <==> outcome is None,
        r matches Ok(v) ==> {
            let rs = readables(outcome.unwrap()@);
            &&& v@.len() == rs.len()
            &&& forall|i: int| 0 <= i < rs.len() ==> meta_matches(rs[i], #[trigger] v@[i])
        },
        outcome is Some && (forall|i: int|
            0 <= i < readables(outcome.unwrap()@).len() ==> raw_formattable(
                #[trigger] readables(outcome.unwrap()@)[i],
            )) ==> r is Ok,
        r == Err::<Vec<FSMeta>, InspectError>(InspectError::TimestampUnavailable) ==> exists|i: int|
            0 <= i < readables(outcome.unwrap()@).len() && !raw_complete(
                #[trigger] readables(outcome.unwrap()@)[i],
            ),
        r matches Err(er) && er != InspectError::Unlistable ==> exists|i: int|
            0 <= i < readables(outcome.unwrap()@).len() && !raw_formattable(
                #[trigger] readables(outcome.unwrap()@)[i],
            ),
{
    let entries = match outcome {
        Option::Some(es) => es,
        Option::None => {
            return Result::Err(InspectError::Unlistable);
        },
    };
    let mut out: Vec<FSMeta> = Vec::new();
    let mut i: usize = 0;
    proof {
        assert(entries@.subrange(0, 0) =~= Seq::<Option<RawEntry>>::empty());
    }
    while i < entries.len()
        invariant
            outcome == Option::Some(entries),
            i <= entries.len(),
            out@.len() == readables(entries@.subrange(0, i as int)).len(),
            forall|j: int|
                0 <= j < out@.len() ==> meta_matches(
                    readables(entries@.subrange(0, i as int))[j],
                    #[trigger] out@[j],
                ),
            readables(entries@.subrange(0, i as int)).is_prefix_of(readables(entries@)),
        decreases entries.len() - i,
    {
        let ghost pre = entries@.subrange(0, i as int);
        let ghost cur = entries@.subrange(0, i as int + 1);
        proof {
            assert(cur.drop_last() =~= pre);
            assert(cur.last() == entries@[i as int]);
            assert(entries@.subrange(0, entries@.len() as int) =~= entries@);
            lemma_readables_prefix(entries@, i as int + 1);
        }
        match &entries[i] {
            Option::Some(e) => {
                match FSMeta::from_raw(e) {
                    Result::Ok(m) => {
                        out.push(m);
                    },
                    Result::Err(er) => {
                        proof {
                            let k = readables(pre).len() as int;
                            assert(readables(cur) == readables(pre).push(*e));
                            assert(readables(cur)[k] == *e);
                            assert(readables(cur) == readables(entries@).subrange(
                                0,
                                readables(cur).len() as int,
                            ));
                            assert(readables(entries@)[k] == *e);
                            assert(outcome.unwrap() == entries);
                            assert(0 <= k < readables(outcome.unwrap()@).len());
                            assert(!raw_formattable(readables(outcome.unwrap()@)[k]));
                            if er == InspectError::TimestampUnavailable {
                                assert(!raw_complete(readables(outcome.unwrap()@)[k]));
                            }
                        }
                        return Result::Err(er);
                    },
                }
            },
            Option::None => {},
        }
        i = i + 1;
    }
    proof {
        assert(entries@.subrange(0, entries@.len() as int) =~= entries@);
    }
    Result::Ok(out)
}

/// What `readables` gathers over a prefix is a prefix of what it gathers
/// over the whole sequence.
proof fn lemma_readables_prefix(s: Seq<Option<RawEntry>>, i: int)
    requires
        0 <= i <= s.len(),
    ensures
        readables(s.subrange(0, i)).is_prefix_of(readables(s)),
    decreases s.len() - i,
{
    if i == s.len() {
        assert(s.subrange(0, i) =~= s);
    } else {
        lemma_readables_prefix(s, i + 1);
        let pre = s.subrange(0, i);
        let cur = s.subrange(0, i + 1);
        assert(cur.drop_last() =~= pre);
        assert(cur.last() == s[i]);
    }
}

} // verus!
