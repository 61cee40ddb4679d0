//! The line format in which a cache is made durable.
//!
//! A document holds one entry per line, the key and the value separated by
//! one tab, in ascending recency order. A line ends with a line feed, which
//! a carriage return may precede. Empty lines count for nothing. A line
//! that is not empty and does not hold exactly one tab makes the whole
//! document unreadable.
use std::fmt::Display;
use std::hash::Hash;
use vstd::prelude::*;
use vstd::string::to_string_from_display_ensures;
use crate::error::CacheError;
use crate::lru::Cache;

verus! {

/// The index of the first `c` in `s`, or the length of `s` if there is none.
pub open spec fn first_index(s: Seq<char>, c: char) -> nat
    decreases s.len(),
{
    if s.len() == 0 || s[0] == c {
        0
    } else {
        1 + first_index(s.drop_first(), c)
    }
}

/// `line` without the carriage return that it may end with.
pub open spec fn without_carriage_return(line: Seq<char>) -> Seq<char> {
    if line.len() > 0 && line.last() == '\r' {
        line.drop_last()
    } else {
        line
    }
}

/// The lines of `s`. A line runs up to the next line feed, and loses a
/// carriage return that stands just before it. What follows the last line
/// feed is a line too, unless it is empty, and is taken as it stands.
pub open spec fn lines(s: Seq<char>) -> Seq<Seq<char>>
    decreases s.len(),
{
    if s.len() == 0 {
        Seq::empty()
    } else {
        let n = first_index(s, '\n') as int;
        if n >= s.len() {
            seq![s]
        } else {
            seq![without_carriage_return(s.take(n))] + lines(s.skip(n + 1))
        }
    }
}

/// The key and the value of a line, if it holds exactly one tab.
pub open spec fn record_of(line: Seq<char>) -> Option<(Seq<char>, Seq<char>)> {
    let t = first_index(line, '\t') as int;
    if t < line.len() && !line.skip(t + 1).contains('\t') {
        Some((line.take(t), line.skip(t + 1)))
    } else {
        None
    }
}

/// The records of some lines, in their order and without the empty lines,
/// if every other line holds exactly one tab.
pub open spec fn records_of(lines: Seq<Seq<char>>) -> Option<Seq<(Seq<char>, Seq<char>)>>
    decreases lines.len(),
{
    if lines.len() == 0 {
        Some(Seq::empty())
    } else {
        match records_of(lines.drop_last()) {
            None => None,
            Some(front) => if lines.last().len() == 0 {
                Some(front)
            } else {
                match record_of(lines.last()) {
                    Some(record) => Some(front.push(record)),
                    None => None,
                }
            },
        }
    }
}

/// The records that a document holds, if it is well formed.
pub open spec fn decoded(content: Seq<char>) -> Option<Seq<(Seq<char>, Seq<char>)>> {
    records_of(lines(content))
}

/// The line that holds one record.
pub open spec fn encoded_record(record: (Seq<char>, Seq<char>)) -> Seq<char> {
    record.0 + seq!['\t'] + record.1 + seq!['\n']
}

/// The document that holds the given records, one line each.
pub open spec fn encoded(records: Seq<(Seq<char>, Seq<char>)>) -> Seq<char>
    decreases records.len(),
{
    if records.len() == 0 {
        Seq::empty()
    } else {
        encoded(records.drop_last()) + encoded_record(records.last())
    }
}

/// The characters of each key and value.
pub open spec fn record_texts(records: Seq<(String, String)>) -> Seq<(Seq<char>, Seq<char>)> {
    Seq::new(records.len(), |i: int| (records[i].0@, records[i].1@))
}

/// `first_index` is where `c` first stands: `n` is that index when `c`
/// does not occur before `n` and stands at `n`, or `n` is the length.
pub proof fn lemma_first_index(s: Seq<char>, c: char, n: int)
    requires
        0 <= n <= s.len(),
        forall|i: int| 0 <= i < n ==> s[i] != c,
        n == s.len() || s[n] == c,
    ensures
        first_index(s, c) == n,
    decreases s.len(),
{
    if s.len() == 0 || s[0] == c {
    } else {
        let rest = s.drop_first();
        assert forall|i: int| 0 <= i < n - 1 implies rest[i] != c by {
            assert(rest[i] == s[i + 1]);
        }
        lemma_first_index(rest, c, n - 1);
    }
}

/// Lines that cannot be read stay unreadable whatever follows them.
proof fn lemma_unreadable_prefix(front: Seq<Seq<char>>, back: Seq<Seq<char>>)
    requires
        records_of(front) is None,
    ensures
        records_of(front + back) is None,
    decreases back.len(),
{
    if back.len() == 0 {
        assert(front + back =~= front);
    } else {
        lemma_unreadable_prefix(front, back.drop_last());
        assert((front + back).drop_last() =~= front + back.drop_last());
    }
}

/// A key that the line format can hold: it has no tab and no line feed.
pub open spec fn plain_key(key: Seq<char>) -> bool {
    !key.contains('\t') && !key.contains('\n')
}

/// A value that the line format can hold: it has no tab and no line
/// feed, and does not end with a carriage return.
pub open spec fn plain_value(value: Seq<char>) -> bool {
    &&& !value.contains('\t')
    &&& !value.contains('\n')
    &&& value.len() > 0 ==> value.last() != '\r'
}

/// Every key and every value of `records` can be held by the line format.
pub open spec fn plain(records: Seq<(Seq<char>, Seq<char>)>) -> bool {
    forall|i: int| 0 <= i < records.len() ==> plain_key((#[trigger] records[i]).0) && plain_value(
        records[i].1,
    )
}

/// The line of each record, without its line feed.
spec fn bare_lines(records: Seq<(Seq<char>, Seq<char>)>) -> Seq<Seq<char>> {
    Seq::new(records.len(), |i: int| records[i].0 + seq!['\t'] + records[i].1)
}

/// A document begins with the line of its first record.
proof fn lemma_encoded_head(records: Seq<(Seq<char>, Seq<char>)>)
    requires
        records.len() > 0,
    ensures
        encoded(records) == encoded_record(records[0]) + encoded(records.drop_first()),
    decreases records.len(),
{
    if records.len() == 1 {
        assert(records.drop_last() =~= Seq::empty());
        assert(records.drop_first() =~= Seq::empty());
        assert(encoded(records.drop_last()) =~= Seq::<char>::empty());
        assert(encoded(records) =~= encoded_record(records[0]) + encoded(records.drop_first()));
    } else {
        let front = records.drop_last();
        lemma_encoded_head(front);
        assert(front.drop_first() =~= records.drop_first().drop_last());
        assert(front[0] == records[0]);
        assert(records.drop_first().last() == records.last());
        assert(encoded(records) =~= encoded_record(records[0]) + encoded(records.drop_first()));
    }
}

/// The lines of a document of plain records are the lines of the records.
proof fn lemma_lines_of_encoded(records: Seq<(Seq<char>, Seq<char>)>)
    requires
        plain(records),
    ensures
        lines(encoded(records)) == bare_lines(records),
    decreases records.len(),
{
    if records.len() == 0 {
        assert(bare_lines(records) =~= Seq::empty());
    } else {
        let first = records[0];
        let rest = records.drop_first();
        let line = first.0 + seq!['\t'] + first.1;
        let document = encoded(records);
        lemma_encoded_head(records);
        assert forall|i: int| 0 <= i < rest.len() implies plain_key((#[trigger] rest[i]).0)
            && plain_value(rest[i].1) by {
            assert(rest[i] == records[i + 1]);
        }
        lemma_lines_of_encoded(rest);
        assert(document =~= line + seq!['\n'] + encoded(rest));
        assert forall|i: int| 0 <= i < line.len() implies line[i] != '\n' by {
            if i < first.0.len() {
                assert(first.0[i] == line[i]);
            } else if i > first.0.len() {
                assert(first.1[i - first.0.len() - 1] == line[i]);
            }
        }
        lemma_first_index(document, '\n', line.len() as int);
        assert(document.take(line.len() as int) =~= line);
        assert(document.skip(line.len() as int + 1) =~= encoded(rest));
        assert(without_carriage_return(line) == line) by {
            if first.1.len() > 0 {
                assert(line.last() == first.1.last());
            }
        }
        assert(seq![line] + bare_lines(rest) =~= bare_lines(records)) by {
            assert forall|i: int| 0 <= i < records.len() implies (seq![line] + bare_lines(rest))[i]
                == #[trigger] bare_lines(records)[i] by {
                if i > 0 {
                    assert(rest[i - 1] == records[i]);
                }
            }
        }
    }
}

/// The line of a plain record gives that record back.
proof fn lemma_record_of_line(record: (Seq<char>, Seq<char>))
    requires
        plain_key(record.0),
        plain_value(record.1),
    ensures
        record_of(record.0 + seq!['\t'] + record.1) == Some(record),
{
    let line = record.0 + seq!['\t'] + record.1;
    let t = record.0.len() as int;
    assert forall|i: int| 0 <= i < t implies line[i] != '\t' by {
        assert(record.0[i] == line[i]);
    }
    lemma_first_index(line, '\t', t);
    assert(line.skip(t + 1) =~= record.1);
    assert(line.take(t) =~= record.0);
}

/// The lines of plain records give those records back.
proof fn lemma_records_of_lines(records: Seq<(Seq<char>, Seq<char>)>)
    requires
        plain(records),
    ensures
        records_of(bare_lines(records)) == Some(records),
    decreases records.len(),
{
    if records.len() == 0 {
        assert(records =~= Seq::empty());
    } else {
        let front = records.drop_last();
        assert forall|i: int| 0 <= i < front.len() implies plain_key((#[trigger] front[i]).0)
            && plain_value(front[i].1) by {
            assert(front[i] == records[i]);
        }
        lemma_records_of_lines(front);
        assert(bare_lines(records).drop_last() =~= bare_lines(front));
        let last = records.last();
        assert(records[records.len() - 1] == last);
        lemma_record_of_line(last);
        assert(bare_lines(records).last() == last.0 + seq!['\t'] + last.1);
        assert((last.0 + seq!['\t'] + last.1).len() > 0);
        assert(front.push(last) =~= records);
    }
}

/// The document written for records
/// whose keys and values the format can hold is read back as those
/// records, in their order.
pub proof fn law_document_round_trip(records: Seq<(Seq<char>, Seq<char>)>)
    requires
        plain(records),
    ensures
        decoded(encoded(records)) == Some(records),
{
    lemma_lines_of_encoded(records);
    lemma_records_of_lines(records);
}

/// Appends one character to a string.
///
/// Trusted: this is `String::push` of the standard library, which appends
/// the given character to the end of the string.
#[verifier::external_body]
fn push_char(text: &mut String, c: char)
    ensures
        final(text)@ == old(text)@.push(c),
{
    text.push(c)
}

/// The characters of `content`, one by one.
fn chars_of(content: &str) -> (chars: Vec<char>)
    ensures
        chars@ == content@,
{
    let mut chars: Vec<char> = Vec::new();
    for c in it: content.chars()
        invariant
            it.seq() == content@,
            chars@ == it.seq().take(it.index() as int),
    {
        chars.push(c);
        assert(it.seq().take(it.index() + 1) =~= it.seq().take(it.index() as int).push(c));
    }
    assert(content@.take(content@.len() as int) =~= content@);
    chars
}

/// The string made of the characters from `from` up to `to`.
fn text_of(chars: &Vec<char>, from: usize, to: usize) -> (text: String)
    requires
        from <= to <= chars@.len(),
    ensures
        text@ == chars@.subrange(from as int, to as int),
{
    let mut text = String::new();
    let mut at: usize = from;
    while at < to
        invariant
            from <= at <= to <= chars@.len(),
            text@ == chars@.subrange(from as int, at as int),
        decreases to - at,
    {
        push_char(&mut text, chars[at]);
        assert(chars@.subrange(from as int, at + 1) =~= chars@.subrange(from as int, at as int).push(
            chars@[at as int],
        ));
        at = at + 1;
    }
    text
}

/// The first index from `from` up to `to` at which `c` stands, or `to`.
fn find(chars: &Vec<char>, from: usize, to: usize, c: char) -> (at: usize)
    requires
        from <= to <= chars@.len(),
    ensures
        from <= at <= to,
        at - from == first_index(chars@.subrange(from as int, to as int), c),
        forall|i: int| from <= i < at ==> chars@[i] != c,
        at < to ==> chars@[at as int] == c,
{
    let mut at: usize = from;
    while at < to && chars[at] != c
        invariant
            from <= at <= to <= chars@.len(),
            forall|i: int| from <= i < at ==> chars@[i] != c,
        decreases to - at,
    {
        at = at + 1;
    }
    proof {
        lemma_first_index(chars@.subrange(from as int, to as int), c, at - from);
    }
    at
}

/// The key and the value of the line from `from` up to `to`, if it holds
/// exactly one tab.
fn split_record(chars: &Vec<char>, from: usize, to: usize) -> (record: Option<(String, String)>)
    requires
        from <= to <= chars@.len(),
    ensures
        match record_of(chars@.subrange(from as int, to as int)) {
            Some(found) => record matches Some(pair) && (pair.0@, pair.1@) == found,
            None => record is None,
        },
{
    let ghost line = chars@.subrange(from as int, to as int);
    let tab = find(chars, from, to, '\t');
    if tab >= to {
        return None;
    }
    let next = find(chars, tab + 1, to, '\t');
    let ghost rest = line.skip(tab - from + 1);
    assert(rest =~= chars@.subrange(tab + 1, to as int));
    if next < to {
        assert(rest[next - tab - 1] == '\t');
        return None;
    }
    assert(!rest.contains('\t')) by {
        if rest.contains('\t') {
            let i = choose|i: int| 0 <= i < rest.len() && rest[i] == '\t';
            assert(chars@[tab + 1 + i] == '\t');
        }
    }
    let key = text_of(chars, from, tab);
    let value = text_of(chars, tab + 1, to);
    assert(line.take(tab - from) =~= chars@.subrange(from as int, tab as int));
    Some((key, value))
}

/// Reads a document: the records of its lines in their order, or a parse
/// error if some line that is not empty does not hold exactly one tab.
pub fn decode_lines(content: &str) -> (result: Result<Vec<(String, String)>, CacheError>)
    ensures
        match decoded(content@) {
            Some(records) => result matches Ok(found) && record_texts(found@) == records,
            None => result matches Err(CacheError::ParseError(_)),
        },
{
    let chars = chars_of(content);
    let mut records: Vec<(String, String)> = Vec::new();
    let ghost mut done: Seq<Seq<char>> = Seq::empty();
    let mut start: usize = 0;
    assert(chars@.skip(0) =~= chars@);
    assert(record_texts(records@) =~= Seq::empty());
    while start < chars.len()
        invariant
            chars@ == content@,
            start <= chars@.len(),
            lines(chars@) == done + lines(chars@.skip(start as int)),
            records_of(done) == Some(record_texts(records@)),
        decreases chars@.len() - start,
    {
        let ghost rest = chars@.skip(start as int);
        let end = find(&chars, start, chars.len(), '\n');
        assert(chars@.subrange(start as int, chars@.len() as int) =~= rest);
        let terminated = end < chars.len();
        let mut stop: usize = end;
        if terminated && stop > start && chars[stop - 1] == '\r' {
            stop = stop - 1;
        }
        let ghost line = chars@.subrange(start as int, stop as int);
        let next: usize = if terminated { end + 1 } else { end };
        proof {
            let raw = rest.take(end - start);
            assert(raw =~= chars@.subrange(start as int, end as int));
            if terminated {
                assert(line =~= without_carriage_return(raw));
                assert(rest.skip(end - start + 1) =~= chars@.skip(next as int));
            } else {
                assert(line =~= rest);
                assert(chars@.skip(next as int) =~= Seq::<char>::empty());
            }
            assert(lines(rest) =~= seq![line] + lines(chars@.skip(next as int)));
            assert(done + lines(rest) =~= done.push(line) + lines(chars@.skip(next as int)));
            assert(done.push(line).drop_last() =~= done);
        }
        if stop > start {
            match split_record(&chars, start, stop) {
                Some(record) => {
                    let ghost before = record_texts(records@);
                    records.push(record);
                    assert(record_texts(records@) =~= before.push((record.0@, record.1@)));
                },
                None => {
                    proof {
                        lemma_unreadable_prefix(done.push(line), lines(chars@.skip(next as int)));
                    }
                    return Err(CacheError::ParseError(String::from_str("Format de ligne invalide")));
                },
            }
        }
        proof {
            done = done.push(line);
        }
        start = next;
    }
    assert(done + lines(chars@.skip(start as int)) =~= done);
    Ok(records)
}

/// Writes a document: one line for each record, in their order.
pub fn encode_lines(records: &Vec<(String, String)>) -> (content: String)
    ensures
        content@ == encoded(record_texts(records@)),
{
    let mut content = String::new();
    let mut done: usize = 0;
    while done < records.len()
        invariant
            done <= records@.len(),
            content@ == encoded(record_texts(records@).take(done as int)),
        decreases records@.len() - done,
    {
        let ghost before = content@;
        content.append(records[done].0.as_str());
        push_char(&mut content, '\t');
        content.append(records[done].1.as_str());
        push_char(&mut content, '\n');
        proof {
            let texts = record_texts(records@);
            assert(texts.take(done + 1).drop_last() =~= texts.take(done as int));
            assert(texts.take(done + 1).last() == texts[done as int]);
            assert(content@ =~= before + encoded_record(texts[done as int]));
        }
        done = done + 1;
    }
    assert(record_texts(records@).take(done as int) =~= record_texts(records@));
    content
}

/// Each record holds the texts that `Display` gave for the key and the
/// value of the entry at its place.
pub open spec fn shown<K: Display, V: Display>(
    entries: Seq<(K, V)>,
    records: Seq<(String, String)>,
) -> bool {
    &&& records.len() == entries.len()
    &&& forall|i: int| 0 <= i < records.len() ==> to_string_from_display_ensures::<K>(
            &entries[i].0,
            (#[trigger] records[i]).0,
        ) && to_string_from_display_ensures::<V>(&entries[i].1, records[i].1)
}

impl<K, V> Cache<K, V> where K: Hash + Eq + Clone + Display, V: Display {
    /// The entries as records of text, least recently used first: each
    /// key and each value as `Display` shows it.
    pub fn records(&self) -> (records: Vec<(String, String)>)
        requires
            self.wf(),
        ensures
            shown(self@, records@),
    {
        let entries = self.iter();
        let mut records: Vec<(String, String)> = Vec::with_capacity(entries.len());
        let mut done: usize = 0;
        while done < entries.len()
            invariant
                done <= entries@.len(),
                entries@.len() == self@.len(),
                forall|i: int| 0 <= i < entries@.len() ==> *(#[trigger] entries@[i]).0 == self@[i].0
                    && *entries@[i].1 == self@[i].1,
                records@.len() == done,
                forall|i: int| 0 <= i < done ==> to_string_from_display_ensures::<K>(
                        &self@[i].0,
                        (#[trigger] records@[i]).0,
                    ) && to_string_from_display_ensures::<V>(&self@[i].1, records@[i].1),
            decreases entries@.len() - done,
        {
            let (key, value) = entries[done];
            records.push((key.to_string(), value.to_string()));
            done = done + 1;
        }
        records
    }

    /// The document that makes the cache durable: one line for each
    /// entry, least recently used first, with the key and the value as
    /// `Display` shows them.
    pub fn persist(&self) -> (content: String)
        requires
            self.wf(),
        ensures
            exists|records: Seq<(String, String)>| #[trigger] shown(self@, records) && content@ == encoded(
                record_texts(records),
            ),
    {
        let records = self.records();
        encode_lines(&records)
    }
}

} // verus!
