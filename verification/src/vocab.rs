//! The vocabulary file: one `base64(token) rank` pair per line.

use base64::Engine;
use rustc_hash::FxHashMap;
use std::collections::HashMap;
use vstd::prelude::*;

verus! {

/// Line feed, which ends a line.
pub const LF: u8 = 10;

/// Carriage return, dropped where it stands directly before a line feed.
pub const CR: u8 = 13;

/// The space between the fields of a line.
pub const SPACE: u8 = 32;

/// The sign a rank may carry.
pub const PLUS: u8 = 43;

/// The first position at or after `from` that holds `b`, or the length of
/// `s` where there is none.
pub open spec fn next_byte(s: Seq<u8>, b: u8, from: int) -> int
    decreases s.len() - from,
{
    if from >= s.len() {
        s.len() as int
    } else if s[from] == b {
        from
    } else {
        next_byte(s, b, from + 1)
    }
}

/// `next_byte` lies between `from` and the end, no `b` stands before it, and
/// a `b` stands at it unless it is the end.
pub proof fn lemma_next_byte(s: Seq<u8>, b: u8, from: int)
    requires
        0 <= from <= s.len(),
    ensures
        from <= next_byte(s, b, from) <= s.len(),
        forall|i: int| from <= i < next_byte(s, b, from) ==> s[i] != b,
        next_byte(s, b, from) < s.len() ==> s[next_byte(s, b, from)] == b,
    decreases s.len() - from,
{
    if from < s.len() && s[from] != b {
        lemma_next_byte(s, b, from + 1);
    }
}

/// Scans `s` from `from` for the byte `b`.
pub fn find_byte(s: &[u8], b: u8, from: usize) -> (at: usize)
    requires
        from <= s.len(),
    ensures
        at == next_byte(s@, b, from as int),
        from <= at <= s.len(),
{
    let mut at: usize = from;
    while at < s.len() && s[at] != b
        invariant
            from <= at <= s.len(),
            next_byte(s@, b, from as int) == next_byte(s@, b, at as int),
        decreases s.len() - at,
    {
        at += 1;
    }
    at
}

/// Whether `b` is an ASCII decimal digit.
pub open spec fn is_digit(b: u8) -> bool {
    48 <= b <= 57
}

/// The number a string of decimal digits denotes.
pub open spec fn decimal_value(digits: Seq<u8>) -> nat
    decreases digits.len(),
{
    if digits.len() == 0 {
        0
    } else {
        decimal_value(digits.drop_last()) * 10 + (digits.last() - 48) as nat
    }
}

/// A rank text without its optional leading `+`.
pub open spec fn unsigned_part(text: Seq<u8>) -> Seq<u8> {
    if text.len() > 0 && text[0] == PLUS {
        text.subrange(1, text.len() as int)
    } else {
        text
    }
}

/// The rank a field denotes: an optional `+`, then at least one decimal
/// digit and nothing else, with a value that fits the machine word.
pub open spec fn parse_rank(text: Seq<u8>) -> Option<usize> {
    let digits = unsigned_part(text);
    if digits.len() > 0 && (forall|i: int| 0 <= i < digits.len() ==> is_digit(#[trigger] digits[i]))
        && decimal_value(digits) <= usize::MAX {
        Some(decimal_value(digits) as usize)
    } else {
        None
    }
}

/// A string of digits denotes no less than any of its prefixes.
pub proof fn lemma_decimal_value_prefix(digits: Seq<u8>, n: int)
    requires
        0 <= n <= digits.len(),
        forall|i: int| 0 <= i < digits.len() ==> is_digit(#[trigger] digits[i]),
    ensures
        decimal_value(digits.subrange(0, n)) <= decimal_value(digits),
    decreases digits.len() - n,
{
    if n == digits.len() {
        assert(digits.subrange(0, n) =~= digits);
    } else {
        lemma_decimal_value_prefix(digits, n + 1);
        let longer = digits.subrange(0, n + 1);
        assert(longer.drop_last() =~= digits.subrange(0, n));
        assert(is_digit(digits[n]));
    }
}

/// Reads the rank that `text` denotes.
pub fn read_rank(text: &[u8]) -> (rank: Option<usize>)
    ensures
        rank == parse_rank(text@),
{
    let start: usize = if 0 < text.len() && text[0] == PLUS { 1 } else { 0 };
    let ghost digits = unsigned_part(text@);
    assert(digits =~= text@.subrange(start as int, text.len() as int));
    if start == text.len() {
        return None;
    }
    let mut value: usize = 0;
    let mut at: usize = start;
    while at < text.len()
        invariant
            start <= at <= text.len(),
            digits == text@.subrange(start as int, text.len() as int),
            digits == unsigned_part(text@),
            forall|i: int| 0 <= i < at - start ==> is_digit(#[trigger] digits[i]),
            value == decimal_value(digits.subrange(0, at - start)),
        decreases text.len() - at,
    {
        let b = text[at];
        if b < 48 || b > 57 {
            assert(!is_digit(digits[at - start]));
            return None;
        }
        let ghost longer = digits.subrange(0, at - start + 1);
        assert(longer.drop_last() =~= digits.subrange(0, at - start));
        assert(longer.last() == b);
        proof {
            if forall|i: int| 0 <= i < digits.len() ==> is_digit(#[trigger] digits[i]) {
                lemma_decimal_value_prefix(digits, at - start + 1);
            }
        }
        let scaled = match value.checked_mul(10) {
            Some(scaled) => scaled,
            None => { return None; },
        };
        value = match scaled.checked_add((b - 48) as usize) {
            Some(sum) => sum,
            None => { return None; },
        };
        at += 1;
    }
    assert(digits.subrange(0, at - start) =~= digits);
    Some(value)
}

/// The token a word stands for: its base64 decoding, or the empty byte
/// string where the word is not base64.
pub open spec fn token_of(word: Seq<u8>) -> Seq<u8> {
    match base64_decoded(word) {
        Some(bytes) => bytes,
        None => Seq::empty(),
    }
}

/// The entry a line denotes. A line holds fields separated by single spaces:
/// the first is the word, the second the rank, and any others are ignored.
/// A line without a second field, or with one that is no rank, denotes none.
pub open spec fn parse_line(line: Seq<u8>) -> Option<(Seq<u8>, usize)> {
    let space = next_byte(line, SPACE, 0);
    if space >= line.len() {
        None
    } else {
        match parse_rank(line.subrange(space + 1, next_byte(line, SPACE, space + 1))) {
            Some(rank) => Some((token_of(line.subrange(0, space)), rank)),
            None => None,
        }
    }
}

/// A line that denotes an entry holds a space and a digit at least.
pub proof fn lemma_entry_takes_two_bytes(line: Seq<u8>)
    requires
        parse_line(line) is Some,
    ensures
        line.len() >= 2,
{
    let space = next_byte(line, SPACE, 0);
    lemma_next_byte(line, SPACE, 0);
    lemma_next_byte(line, SPACE, space + 1);
}

/// The line that starts at `start`: it runs up to the next line feed or the
/// end of `s`, without the carriage return that a line feed may follow.
pub open spec fn line_at(s: Seq<u8>, start: int) -> Seq<u8> {
    let end = next_byte(s, LF, start);
    if end < s.len() && start < end && s[end - 1] == CR {
        s.subrange(start, end - 1)
    } else {
        s.subrange(start, end)
    }
}

/// The lines of `s` from `start` on. A line feed at the very end opens no
/// further line.
pub open spec fn lines_from(s: Seq<u8>, start: int) -> Seq<Seq<u8>>
    decreases s.len() - start,
{
    let end = next_byte(s, LF, start);
    if start < 0 || start >= s.len() || end < start {
        Seq::empty()
    } else if end >= s.len() {
        seq![line_at(s, start)]
    } else {
        seq![line_at(s, start)] + lines_from(s, end + 1)
    }
}

/// The lines of a file.
pub open spec fn lines(s: Seq<u8>) -> Seq<Seq<u8>> {
    lines_from(s, 0)
}

/// Whether each of the first `n` lines denotes an entry.
pub open spec fn lines_well_formed(lines: Seq<Seq<u8>>, n: int) -> bool {
    forall|i: int| 0 <= i < n ==> (#[trigger] parse_line(lines[i])) is Some
}

/// Why a vocabulary could not be read.
#[derive(Debug, Clone, Copy, PartialEq, Eq)]
pub enum VocabError {
    /// The line with this zero-based number holds no `word rank` pair.
    MalformedLine(usize),
    /// Two different tokens carry this rank.
    DuplicateRank(usize),
}

/// `base64::DecodeError`: why a byte string is no base64. Nothing is read
/// from it.
#[verifier::external_type_specification]
#[verifier::external_body]
pub struct ExDecodeError(base64::DecodeError);

/// `rustc_hash::FxHasher`: the hasher of a rank table.
#[verifier::external_type_specification]
#[verifier::external_body]
pub struct ExFxHasher(rustc_hash::FxHasher);

/// `std::hash::BuildHasherDefault`: what makes the hashers of a rank table.
#[verifier::external_type_specification]
#[verifier::external_body]
#[verifier::reject_recursive_types(H)]
pub struct ExBuildHasherDefault<H>(std::hash::BuildHasherDefault<H>);

/// What standard, padded base64 decoding makes of a byte string: the decoded
/// bytes, or `None` where the input is not canonical base64.
pub uninterp spec fn base64_decoded(input: Seq<u8>) -> Option<Seq<u8>>;

/// `base64::engine::general_purpose::STANDARD.decode`: decodes `input` with
/// the standard alphabet and canonical padding. The result depends on the
/// input bytes alone; it is `Ok` exactly where `base64_decoded` is `Some`,
/// and then holds those bytes.
#[verifier::external_body]
fn decode_base64(input: &[u8]) -> (decoded: Result<Vec<u8>, base64::DecodeError>)
    ensures
        match decoded {
            Ok(bytes) => base64_decoded(input@) == Some(bytes@),
            Err(_) => base64_decoded(input@) is None,
        },
{
    base64::engine::general_purpose::STANDARD.decode(input)
}

/// The entries a rank table holds, keyed by token bytes.
pub uninterp spec fn table_entries(table: FxHashMap<Vec<u8>, usize>) -> Map<Seq<u8>, usize>;

/// `FxHashMap::default`: a table without entries.
#[verifier::external_body]
fn table_new() -> (table: FxHashMap<Vec<u8>, usize>)
    ensures
        table_entries(table) == (Map::<Seq<u8>, usize>::empty()),
{
    FxHashMap::default()
}

/// `HashMap::insert`: afterwards `key` maps to `rank`, whether or not it was
/// present before; every other entry is unchanged.
#[verifier::external_body]
fn table_insert(table: &mut FxHashMap<Vec<u8>, usize>, key: Vec<u8>, rank: usize)
    ensures
        table_entries(*final(table)) == table_entries(*old(table)).insert(key@, rank),
{
    table.insert(key, rank);
}

/// `HashMap::get`: the rank that `key` maps to, if it is present.
#[verifier::external_body]
fn table_get(table: &FxHashMap<Vec<u8>, usize>, key: &Vec<u8>) -> (rank: Option<usize>)
    ensures
        rank == table_entries(*table).get(key@),
{
    table.get(key).copied()
}

/// `HashMap::len`: the number of keys present.
#[verifier::external_body]
pub(crate) fn table_len(table: &FxHashMap<Vec<u8>, usize>) -> (len: usize)
    ensures
        len == table_entries(*table).dom().len(),
{
    table.len()
}


/// Reads the entry that `line` denotes, decoding its word.
pub fn read_line(line: &[u8]) -> (entry: Option<(Vec<u8>, usize)>)
    ensures
        match entry {
            Some(pair) => parse_line(line@) == Some((pair.0@, pair.1)),
            None => parse_line(line@) is None,
        },
{
    let space = find_byte(line, SPACE, 0);
    if space >= line.len() {
        return None;
    }
    let stop = find_byte(line, SPACE, space + 1);
    match read_rank(&line[space + 1..stop]) {
        Some(rank) => {
            let token = match decode_base64(&line[0..space]) {
                Ok(bytes) => bytes,
                Err(_) => Vec::new(),
            };
            Some((token, rank))
        },
        None => None,
    }
}

/// The entries of the first `n` lines, in line order.
pub open spec fn entries_of(lines: Seq<Seq<u8>>, n: int) -> Seq<(Seq<u8>, usize)> {
    Seq::new(n as nat, |i: int| parse_line(lines[i]).unwrap())
}

/// The view of a list of entries.
pub open spec fn entries_view(entries: Seq<(Vec<u8>, usize)>) -> Seq<(Seq<u8>, usize)> {
    Seq::new(entries.len(), |i: int| (entries[i].0@, entries[i].1))
}

/// Reads a vocabulary file into its entries, one per line and in line order.
/// Fails at the first line that denotes no entry.
pub fn read_entries(contents: &[u8]) -> (entries: Result<Vec<(Vec<u8>, usize)>, VocabError>)
    ensures
        match entries {
            Ok(list) => lines_well_formed(lines(contents@), lines(contents@).len() as int)
                && entries_view(list@) == entries_of(lines(contents@), lines(contents@).len() as int)
                && 2 * list.len() <= contents.len(),
            Err(VocabError::MalformedLine(n)) => n < lines(contents@).len()
                && lines_well_formed(lines(contents@), n as int)
                && parse_line(lines(contents@)[n as int]) is None,
            Err(VocabError::DuplicateRank(_)) => false,
        },
{
    let mut list: Vec<(Vec<u8>, usize)> = Vec::new();
    let mut start: usize = 0;
    let ghost mut done: Seq<Seq<u8>> = Seq::empty();
    while start < contents.len()
        invariant
            start <= contents.len(),
            lines(contents@) == done + lines_from(contents@, start as int),
            done.len() == list.len(),
            2 * list.len() <= start,
            lines_well_formed(done, done.len() as int),
            entries_view(list@) == entries_of(done, done.len() as int),
        decreases contents.len() - start,
    {
        let end = find_byte(contents, LF, start);
        let stop: usize = if end < contents.len() && start < end && contents[end - 1] == CR {
            end - 1
        } else {
            end
        };
        let ghost line = line_at(contents@, start as int);
        let ghost rest = if end < contents.len() {
            lines_from(contents@, end + 1)
        } else {
            Seq::empty()
        };
        proof {
            assert(lines_from(contents@, start as int) == seq![line] + rest);
            assert(lines(contents@) =~= (done + seq![line]) + rest);
        }
        match read_line(&contents[start..stop]) {
            Some(pair) => {
                proof {
                    lemma_entry_takes_two_bytes(line);
                    let longer = done + seq![line];
                    assert forall|i: int| 0 <= i < longer.len() implies (#[trigger] parse_line(
                        longer[i],
                    )) is Some by {
                        if i < done.len() {
                            assert(longer[i] == done[i]);
                        }
                    }
                    assert(entries_view(list@.push(pair)) =~= entries_of(
                        longer,
                        longer.len() as int,
                    )) by {
                        assert forall|i: int| 0 <= i < longer.len() implies entries_view(
                            list@.push(pair),
                        )[i] == entries_of(longer, longer.len() as int)[i] by {
                            if i < done.len() {
                                assert(longer[i] == done[i]);
                                assert(entries_view(list@)[i] == entries_of(
                                    done,
                                    done.len() as int,
                                )[i]);
                            }
                        }
                    }
                    done = longer;
                }
                list.push(pair);
            },
            None => {
                proof {
                    let all = lines(contents@);
                    assert(all[done.len() as int] == line);
                    assert forall|i: int| 0 <= i < done.len() implies (#[trigger] parse_line(
                        all[i],
                    )) is Some by {
                        assert(all[i] == done[i]);
                    }
                }
                return Err(VocabError::MalformedLine(list.len()));
            },
        }
        start = if end < contents.len() { end + 1 } else { end };
        proof {
            if end >= contents.len() {
                assert(lines_from(contents@, start as int) =~= Seq::<Seq<u8>>::empty());
            }
        }
    }
    proof {
        assert(lines_from(contents@, start as int) =~= Seq::<Seq<u8>>::empty());
        assert(lines(contents@) =~= done);
    }
    Ok(list)
}


/// The table that inserting `entries` one after the other leaves: for a key
/// that occurs more than once, the last rank stands.
pub open spec fn table_of(entries: Seq<(Seq<u8>, usize)>) -> Map<Seq<u8>, usize>
    decreases entries.len(),
{
    if entries.len() == 0 {
        Map::empty()
    } else {
        table_of(entries.drop_last()).insert(entries.last().0, entries.last().1)
    }
}

/// The table of a list of entries is finite, each of its keys is the key of
/// an entry, and each entry's key is one of its keys.
pub proof fn lemma_table_of(entries: Seq<(Seq<u8>, usize)>)
    ensures
        table_of(entries).dom().finite(),
        table_of(entries).dom().len() <= entries.len(),
        forall|key: Seq<u8>| #[trigger]
            table_of(entries).dom().contains(key) <==> exists|i: int|
                0 <= i < entries.len() && (#[trigger] entries[i]).0 == key,
    decreases entries.len(),
{
    if entries.len() > 0 {
        let front = entries.drop_last();
        lemma_table_of(front);
        assert forall|key: Seq<u8>| #[trigger]
            table_of(entries).dom().contains(key) implies exists|i: int|
            0 <= i < entries.len() && (#[trigger] entries[i]).0 == key by {
            if key == entries.last().0 {
                assert(entries[entries.len() - 1].0 == key);
            } else {
                assert(table_of(front).dom().contains(key));
                let i = choose|i: int| 0 <= i < front.len() && (#[trigger] front[i]).0 == key;
                assert(entries[i].0 == key);
            }
        }
        assert forall|key: Seq<u8>|
            (exists|i: int|
                0 <= i < entries.len() && (#[trigger] entries[i]).0 == key) implies #[trigger]
            table_of(entries).dom().contains(key) by {
            let i = choose|i: int| 0 <= i < entries.len() && (#[trigger] entries[i]).0 == key;
            if i < front.len() {
                assert(front[i].0 == key);
            }
        }
    }
}

/// Whether no two keys of `table` share a rank.
pub open spec fn ranks_distinct(table: Map<Seq<u8>, usize>) -> bool {
    forall|a: Seq<u8>, b: Seq<u8>|
        table.dom().contains(a) && table.dom().contains(b) && #[trigger] table[a]
            == #[trigger] table[b] ==> a == b
}

/// Whether two different keys of `table` carry `rank`.
pub open spec fn rank_is_shared(table: Map<Seq<u8>, usize>, rank: usize) -> bool {
    exists|a: Seq<u8>, b: Seq<u8>|
        table.dom().contains(a) && table.dom().contains(b) && a != b && #[trigger] table[a] == rank
            && #[trigger] table[b] == rank
}

/// Whether two byte strings hold the same bytes.
pub fn bytes_equal(a: &[u8], b: &[u8]) -> (same: bool)
    ensures
        same == (a@ == b@),
{
    if a.len() != b.len() {
        return false;
    }
    let mut at: usize = 0;
    while at < a.len()
        invariant
            at <= a.len() == b.len(),
            forall|i: int| 0 <= i < at ==> a@[i] == b@[i],
        decreases a.len() - at,
    {
        if a[at] != b[at] {
            return false;
        }
        at += 1;
    }
    assert(a@ =~= b@);
    true
}

/// A copy of a byte string.
pub fn copy_bytes(bytes: &[u8]) -> (copy: Vec<u8>)
    ensures
        copy@ == bytes@,
{
    let mut copy: Vec<u8> = Vec::new();
    let mut at: usize = 0;
    while at < bytes.len()
        invariant
            at <= bytes.len(),
            copy@ == bytes@.subrange(0, at as int),
        decreases bytes.len() - at,
    {
        copy.push(bytes[at]);
        assert(copy@ =~= bytes@.subrange(0, at + 1));
        at += 1;
    }
    assert(copy@ =~= bytes@);
    copy
}

/// Fills a rank table with `entries`, in order.
pub fn build_table(entries: &Vec<(Vec<u8>, usize)>) -> (table: FxHashMap<Vec<u8>, usize>)
    ensures
        table_entries(table) == table_of(entries_view(entries@)),
{
    let mut table = table_new();
    let mut at: usize = 0;
    while at < entries.len()
        invariant
            at <= entries.len(),
            table_entries(table) == table_of(entries_view(entries@).subrange(0, at as int)),
        decreases entries.len() - at,
    {
        let key = copy_bytes(entries[at].0.as_slice());
        proof {
            let longer = entries_view(entries@).subrange(0, at + 1);
            assert(longer.drop_last() =~= entries_view(entries@).subrange(0, at as int));
            assert(longer.last() == (entries[at as int].0@, entries[at as int].1));
        }
        table_insert(&mut table, key, entries[at].1);
        at += 1;
    }
    assert(entries_view(entries@).subrange(0, at as int) =~= entries_view(entries@));
    table
}


/// Looks for two keys of `table` that share a rank. Returns the ranks in use,
/// each with the position of an entry whose key carries it, or the first
/// rank found twice.
pub fn index_ranks(entries: &Vec<(Vec<u8>, usize)>, table: &FxHashMap<Vec<u8>, usize>) -> (index:
    Result<HashMap<usize, usize>, VocabError>)
    requires
        table_entries(*table) == table_of(entries_view(entries@)),
    ensures
        match index {
            Ok(owners) => {
                &&& ranks_distinct(table_entries(*table))
                &&& owners@.dom() == table_entries(*table).values()
                &&& forall|rank: usize| #[trigger]
                    owners@.dom().contains(rank) ==> owners@[rank] < entries.len()
                        && table_entries(*table)[entries[owners@[rank] as int].0@] == rank
            },
            Err(VocabError::DuplicateRank(rank)) => !ranks_distinct(table_entries(*table))
                && rank_is_shared(table_entries(*table), rank),
            Err(VocabError::MalformedLine(_)) => false,
        },
{
    broadcast use vstd::std_specs::hash::group_hash_axioms;

    let ghost list = entries_view(entries@);
    let ghost map = table_entries(*table);
    proof {
        lemma_table_of(list);
    }
    let mut owners: HashMap<usize, usize> = HashMap::new();
    let mut at: usize = 0;
    while at < entries.len()
        invariant
            at <= entries.len(),
            list == entries_view(entries@),
            map == table_entries(*table),
            map == table_of(list),
            forall|key: Seq<u8>| #[trigger]
                map.dom().contains(key) <==> exists|i: int|
                    0 <= i < list.len() && (#[trigger] list[i]).0 == key,
            forall|i: int|
                0 <= i < at ==> owners@.dom().contains(#[trigger] map[list[i].0]) && list[owners@[map[list[i].0]] as int].0
                    == list[i].0,
            forall|rank: usize| #[trigger]
                owners@.dom().contains(rank) ==> owners@[rank] < at && map[list[owners@[rank] as int].0]
                    == rank,
        decreases entries.len() - at,
    {
        let ghost key = list[at as int].0;
        assert(map.dom().contains(key));
        match table_get(table, &entries[at].0) {
            Some(rank) => {
                match owners.get(&rank) {
                    Some(owner) => {
                        if !bytes_equal(entries[*owner].0.as_slice(), entries[at].0.as_slice()) {
                            proof {
                                let other = list[*owner as int].0;
                                assert(map.dom().contains(other));
                                assert(map[other] == rank && map[key] == rank);
                                assert(other != key);
                            }
                            return Err(VocabError::DuplicateRank(rank));
                        }
                    },
                    None => {
                        owners.insert(rank, at);
                    },
                }
            },
            None => {},
        }
        at += 1;
    }
    proof {
        assert forall|a: Seq<u8>, b: Seq<u8>|
            map.dom().contains(a) && map.dom().contains(b) && #[trigger] map[a]
                == #[trigger] map[b] implies a == b by {
            let i = choose|i: int| 0 <= i < list.len() && (#[trigger] list[i]).0 == a;
            let j = choose|j: int| 0 <= j < list.len() && (#[trigger] list[j]).0 == b;
            assert(owners@.dom().contains(map[list[i].0]));
            assert(owners@.dom().contains(map[list[j].0]));
        }
        assert(owners@.dom() =~= map.values()) by {
            assert forall|rank: usize| owners@.dom().contains(rank) implies map.values().contains(
                rank,
            ) by {
                let key = list[owners@[rank] as int].0;
                assert(map.dom().contains(key));
            }
            assert forall|rank: usize| map.values().contains(rank) implies owners@.dom().contains(
                rank,
            ) by {
                let key = choose|key: Seq<u8>| map.dom().contains(key) && map[key] == rank;
                let i = choose|i: int| 0 <= i < list.len() && (#[trigger] list[i]).0 == key;
                assert(owners@.dom().contains(map[list[i].0]));
            }
        }
    }
    Ok(owners)
}

} // verus!
