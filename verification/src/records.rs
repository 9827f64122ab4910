//! Relationship records: reading them from text, removing the duplicates,
//! and writing them as text again.
//!
//! A record is a pair of names. In the text each line holds one record, its
//! two names separated by a comma.

use crate::text::chars_of;
use crate::text::split;
use crate::text::split_chars;
use crate::text::string_of;
use crate::text::trim;
use crate::text::trim_chars;
use vstd::hash_map::StringHashMap;
use vstd::prelude::*;
use vstd::string::StringExecFns;

verus! {

/// The record that a line holds: its first two fields, each without the
/// white space around it. A line with fewer than two fields holds none.
pub open spec fn record_of(line: Seq<char>) -> Option<(Seq<char>, Seq<char>)> {
    let fields = split(line, ',');
    if fields.len() >= 2 {
        Some((trim(fields[0]), trim(fields[1])))
    } else {
        None
    }
}

/// The records that the lines hold, in the order of the lines.
pub open spec fn records_of_lines(lines: Seq<Seq<char>>) -> Seq<(Seq<char>, Seq<char>)>
    decreases lines.len(),
{
    if lines.len() == 0 {
        Seq::empty()
    } else {
        let init = records_of_lines(lines.drop_last());
        match record_of(lines.last()) {
            Some(record) => init.push(record),
            None => init,
        }
    }
}

/// The records that a text holds. Its lines end at each line feed; a
/// carriage return before the line feed is white space like any other.
pub open spec fn records_of(text: Seq<char>) -> Seq<(Seq<char>, Seq<char>)> {
    records_of_lines(split(text, '\n'))
}

/// The sequence without the elements that occurred in it before: of equal
/// elements the first one stays, in its place.
pub open spec fn dedup<A>(s: Seq<A>) -> Seq<A>
    decreases s.len(),
{
    if s.len() == 0 {
        Seq::empty()
    } else {
        let init = dedup(s.drop_last());
        if init.contains(s.last()) {
            init
        } else {
            init.push(s.last())
        }
    }
}

/// The line that holds a record: the two names with a comma between them
/// and a line feed at the end.
pub open spec fn line_of(record: (Seq<char>, Seq<char>)) -> Seq<char> {
    record.0 + seq![','] + record.1 + seq!['\n']
}

/// The text that holds the records, one line for each.
pub open spec fn text_of(records: Seq<(Seq<char>, Seq<char>)>) -> Seq<char>
    decreases records.len(),
{
    if records.len() == 0 {
        Seq::empty()
    } else {
        text_of(records.drop_last()) + line_of(records.last())
    }
}

/// No element occurs twice in `dedup(s)`, and it has the elements of `s`
/// and no others: nothing is lost but repetitions, and nothing is added.
pub proof fn lemma_dedup<A>(s: Seq<A>)
    ensures
        dedup(s).no_duplicates(),
        forall|x: A| #[trigger] dedup(s).contains(x) <==> s.contains(x),
        dedup(s).len() <= s.len(),
    decreases s.len(),
{
    if s.len() > 0 {
        let init = dedup(s.drop_last());
        lemma_dedup(s.drop_last());
        assert forall|x: A| #[trigger] dedup(s).contains(x) <==> s.contains(x) by {
            if dedup(s).contains(x) {
                let i = choose|i: int| 0 <= i < dedup(s).len() && dedup(s)[i] == x;
                if i < init.len() {
                    assert(init[i] == x);
                    assert(init.contains(x));
                    let k = choose|k: int| 0 <= k < s.drop_last().len() && s.drop_last()[k] == x;
                    assert(s[k] == x);
                } else {
                    assert(s[s.len() - 1] == x);
                }
            }
            if s.contains(x) {
                let k = choose|k: int| 0 <= k < s.len() && s[k] == x;
                if k < s.len() - 1 {
                    assert(s.drop_last()[k] == x);
                    assert(init.contains(x));
                    let i = choose|i: int| 0 <= i < init.len() && init[i] == x;
                    assert(dedup(s)[i] == x);
                } else if init.contains(x) {
                } else {
                    assert(dedup(s)[init.len() as int] == x);
                }
            }
        }
    }
}

/// A sequence in which nothing occurs twice is its own `dedup`.
pub proof fn lemma_dedup_of_distinct<A>(s: Seq<A>)
    requires
        s.no_duplicates(),
    ensures
        dedup(s) == s,
    decreases s.len(),
{
    if s.len() > 0 {
        lemma_dedup_of_distinct(s.drop_last());
        if s.drop_last().contains(s.last()) {
            let k = choose|k: int| 0 <= k < s.drop_last().len() && s.drop_last()[k] == s.last();
            assert(s[k] == s[s.len() - 1]);
        }
        assert(s.drop_last().push(s.last()) =~= s);
    }
}

/// Removing duplicates a second time removes nothing more.
pub proof fn lemma_dedup_idempotent<A>(s: Seq<A>)
    ensures
        dedup(dedup(s)) == dedup(s),
{
    lemma_dedup(s);
    lemma_dedup_of_distinct(dedup(s));
}

/// Reads the records of a text.
pub fn read_csv(text: &str) -> (records: Vec<(String, String)>)
    ensures
        records.deep_view() == records_of(text@),
{
    let chars = chars_of(text);
    let lines = split_chars(&chars, '\n');
    let mut records: Vec<(String, String)> = Vec::new();
    let mut i: usize = 0;
    assert(lines.deep_view().take(0) == Seq::<Seq<char>>::empty());
    assert(records.deep_view() == Seq::<(Seq<char>, Seq<char>)>::empty());
    while i < lines.len()
        invariant
            i <= lines.len(),
            records.deep_view() == records_of_lines(lines.deep_view().take(i as int)),
        decreases lines.len() - i,
    {
        let ghost before = records.deep_view();
        let ghost head = lines.deep_view().take(i as int);
        let ghost grown = lines.deep_view().take(i + 1);
        assert(grown.drop_last() == head);
        assert(grown.last() == lines[i as int]@);
        let fields = split_chars(&lines[i], ',');
        if fields.len() >= 2 {
            let source = string_of(&trim_chars(&fields[0]));
            let target = string_of(&trim_chars(&fields[1]));
            assert(fields.deep_view()[0] == fields[0]@);
            assert(fields.deep_view()[1] == fields[1]@);
            records.push((source, target));
            assert(records.deep_view() == before.push((source@, target@)));
        }
        i += 1;
    }
    assert(lines.deep_view().take(lines.len() as int) == lines.deep_view());
    records
}

/// The characters of `name`, each followed by the mark `'1'`.
pub open spec fn marked(name: Seq<char>) -> Seq<char>
    decreases name.len(),
{
    if name.len() == 0 {
        Seq::empty()
    } else {
        marked(name.drop_last()) + seq![name.last(), '1']
    }
}

/// One string for the two names of a record, from which both can be told:
/// the second name as it is, the mark `'0'`, and the marked first name.
/// Read from its end, the string gives the first name back character by
/// character until the mark `'0'` is met, and what is left is the second.
pub open spec fn pair_key(record: (Seq<char>, Seq<char>)) -> Seq<char> {
    record.1 + seq!['0'] + marked(record.0)
}

/// Records with the same key have the same two names.
pub proof fn lemma_pair_key_injective(a: (Seq<char>, Seq<char>), b: (Seq<char>, Seq<char>))
    requires
        pair_key(a) == pair_key(b),
    ensures
        a == b,
    decreases a.0.len(),
{
    let ka = pair_key(a);
    let kb = pair_key(b);
    if a.0.len() == 0 {
        assert(ka.last() == '0');
        if b.0.len() > 0 {
            assert(kb.last() == '1');
        }
        assert(a.1 =~= ka.drop_last());
        assert(b.1 =~= kb.drop_last());
        assert(a.0 =~= b.0);
    } else {
        assert(ka.last() == '1');
        if b.0.len() == 0 {
            assert(kb.last() == '0');
        }
        assert(ka[ka.len() - 2] == a.0.last());
        assert(kb[kb.len() - 2] == b.0.last());
        let shorter_a = (a.0.drop_last(), a.1);
        let shorter_b = (b.0.drop_last(), b.1);
        assert(pair_key(shorter_a) =~= ka.drop_last().drop_last());
        assert(pair_key(shorter_b) =~= kb.drop_last().drop_last());
        lemma_pair_key_injective(shorter_a, shorter_b);
        assert(a.0 =~= a.0.drop_last().push(a.0.last()));
        assert(b.0 =~= b.0.drop_last().push(b.0.last()));
    }
}

/// The key of a record.
fn key_of(record: &(String, String)) -> (key: String)
    ensures
        key@ == pair_key(record.deep_view()),
{
    let mut key = record.1.clone();
    key.push('0');
    let name = chars_of(record.0.as_str());
    let mut i: usize = 0;
    assert(name@.take(0) == Seq::<char>::empty());
    while i < name.len()
        invariant
            i <= name.len(),
            name@ == record.0@,
            key@ == record.1@ + seq!['0'] + marked(name@.take(i as int)),
        decreases name.len() - i,
    {
        assert(name@.take(i + 1).drop_last() == name@.take(i as int));
        key.push(name[i]);
        key.push('1');
        i += 1;
    }
    assert(name@.take(name.len() as int) == name@);
    key
}

/// Removes the records that equal an earlier one in both names. What stays
/// keeps its order.
pub fn remove_duplicates(edges: &[(String, String)]) -> (unique: Vec<(String, String)>)
    ensures
        unique.deep_view() == dedup(edges.deep_view()),
        unique.len() <= edges.len(),
        unique.deep_view().no_duplicates(),
        forall|record: (Seq<char>, Seq<char>)| #[trigger]
            unique.deep_view().contains(record) <==> edges.deep_view().contains(record),
{
    let mut unique: Vec<(String, String)> = Vec::new();
    let mut seen: StringHashMap<bool> = StringHashMap::new();
    let mut i: usize = 0;
    assert(edges.deep_view().take(0) == Seq::<(Seq<char>, Seq<char>)>::empty());
    assert(unique.deep_view() == Seq::<(Seq<char>, Seq<char>)>::empty());
    while i < edges.len()
        invariant
            i <= edges.len(),
            unique.deep_view() == dedup(edges.deep_view().take(i as int)),
            forall|key: Seq<char>| #[trigger]
                seen@.contains_key(key) <==> exists|j: int|
                    0 <= j < unique.len() && pair_key(#[trigger] unique.deep_view()[j]) == key,
        decreases edges.len() - i,
    {
        let ghost before = unique.deep_view();
        let ghost head = edges.deep_view().take(i as int);
        let ghost grown = edges.deep_view().take(i + 1);
        let ghost record = edges[i as int].deep_view();
        assert(grown.drop_last() == head);
        assert(grown.last() == record);
        let key = key_of(&edges[i]);
        let known = seen.contains_key(key.as_str());
        proof {
            if known {
                let j = choose|j: int|
                    0 <= j < before.len() && pair_key(#[trigger] before[j]) == key@;
                lemma_pair_key_injective(before[j], record);
            }
            if before.contains(record) {
                let j = choose|j: int| 0 <= j < before.len() && before[j] == record;
                assert(pair_key(before[j]) == key@);
            }
        }
        if !known {
            unique.push((edges[i].0.clone(), edges[i].1.clone()));
            seen.insert(key, true);
            proof {
                let after = unique.deep_view();
                assert(after == before.push(record));
                assert forall|k: Seq<char>| #[trigger]
                    seen@.contains_key(k) <==> exists|j: int|
                        0 <= j < after.len() && pair_key(#[trigger] after[j]) == k by {
                    if seen@.contains_key(k) {
                        if k == key@ {
                            assert(pair_key(after[before.len() as int]) == k);
                        } else {
                            let j = choose|j: int|
                                0 <= j < before.len() && pair_key(#[trigger] before[j]) == k;
                            assert(pair_key(after[j]) == k);
                        }
                    }
                    if exists|j: int| 0 <= j < after.len() && pair_key(#[trigger] after[j]) == k {
                        let j = choose|j: int|
                            0 <= j < after.len() && pair_key(#[trigger] after[j]) == k;
                        if j < before.len() {
                            assert(pair_key(before[j]) == k);
                        }
                    }
                }
            }
        }
        i += 1;
    }
    assert(edges.deep_view().take(edges.len() as int) == edges.deep_view());
    proof {
        lemma_dedup(edges.deep_view());
    }
    unique
}

/// Writes the records as text, one line for each.
pub fn write_txt(edges: &[(String, String)]) -> (text: String)
    ensures
        text@ == text_of(edges.deep_view()),
{
    let mut text = String::new();
    let mut i: usize = 0;
    assert(edges.deep_view().take(0) == Seq::<(Seq<char>, Seq<char>)>::empty());
    while i < edges.len()
        invariant
            i <= edges.len(),
            text@ == text_of(edges.deep_view().take(i as int)),
        decreases edges.len() - i,
    {
        let ghost head = edges.deep_view().take(i as int);
        let ghost grown = edges.deep_view().take(i + 1);
        assert(grown.drop_last() == head);
        assert(grown.last() == edges[i as int].deep_view());
        text.append(edges[i].0.as_str());
        text.push(',');
        text.append(edges[i].1.as_str());
        text.push('\n');
        i += 1;
    }
    assert(edges.deep_view().take(edges.len() as int) == edges.deep_view());
    text
}

/// Cleans a text of records: reads them, removes the duplicates and writes
/// what is left as text.
pub fn csv_to_txt(input: &str) -> (output: String)
    ensures
        output@ == text_of(dedup(records_of(input@))),
{
    let edges = read_csv(input);
    let cleaned_edges = remove_duplicates(edges.as_slice());
    write_txt(cleaned_edges.as_slice())
}

} // verus!
