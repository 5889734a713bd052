use vstd::prelude::*;
use vstd::std_specs::iter::IteratorSpec;
use vstd::string::*;

verus! {

broadcast use vstd::string::group_string_axioms;

/// How often `c` occurs in `text`.
pub open spec fn occurrences(text: Seq<char>, c: char) -> nat
    decreases text.len(),
{
    if text.len() == 0 {
        0
    } else {
        occurrences(text.drop_last(), c) + if text.last() == c {
            1nat
        } else {
            0nat
        }
    }
}

/// The symbols of `text`, each once, in the order in which they first occur.
pub open spec fn distinct_symbols(text: Seq<char>) -> Seq<char>
    decreases text.len(),
{
    if text.len() == 0 {
        Seq::empty()
    } else {
        let earlier = distinct_symbols(text.drop_last());
        if earlier.contains(text.last()) {
            earlier
        } else {
            earlier.push(text.last())
        }
    }
}

/// The frequency table of `text`: one entry for each distinct symbol, in the
/// order of first occurrence, with the number of its occurrences.
pub open spec fn frequency_table(text: Seq<char>) -> Seq<(char, u64)> {
    let symbols = distinct_symbols(text);
    Seq::new(symbols.len(), |i: int| (symbols[i], occurrences(text, symbols[i]) as u64))
}

/// The sum of the frequencies of a table.
pub open spec fn total_frequency(table: Seq<(char, u64)>) -> nat
    decreases table.len(),
{
    if table.len() == 0 {
        0
    } else {
        total_frequency(table.drop_last()) + table.last().1 as nat
    }
}

/// Whether `table` has an entry for the symbol `c`.
pub open spec fn has_entry(table: Seq<(char, u64)>, c: char) -> bool {
    exists|i: int| 0 <= i < table.len() && (#[trigger] table[i]).0 == c
}

/// No two entries of `table` are for the same symbol.
pub open spec fn distinct_entries(table: Seq<(char, u64)>) -> bool {
    forall|i: int, j: int|
        0 <= i < j < table.len() ==> (#[trigger] table[i]).0 != (#[trigger] table[j]).0
}

/// A symbol occurs at most as often as the text is long, and at least once
/// exactly if the text holds it.
pub proof fn lemma_occurrences(text: Seq<char>, c: char)
    ensures
        occurrences(text, c) <= text.len(),
        occurrences(text, c) > 0 <==> text.contains(c),
    decreases text.len(),
{
    if text.len() > 0 {
        let front = text.drop_last();
        lemma_occurrences(front, c);
        if front.contains(c) {
            let i = choose|i: int| 0 <= i < front.len() && front[i] == c;
            assert(text[i] == c);
        }
        if text.contains(c) && text.last() != c {
            let i = choose|i: int| 0 <= i < text.len() && text[i] == c;
            assert(front[i] == c);
        }
        if text.last() == c {
            assert(text[text.len() - 1] == c);
        }
    }
}

/// The distinct symbols of a text are the symbols that occur in it, and none
/// of them is listed twice.
pub proof fn lemma_distinct_symbols(text: Seq<char>)
    ensures
        distinct_symbols(text).no_duplicates(),
        distinct_symbols(text).len() <= text.len(),
        forall|c: char| distinct_symbols(text).contains(c) <==> text.contains(c),
    decreases text.len(),
{
    if text.len() > 0 {
        let front = text.drop_last();
        let last = text.last();
        let earlier = distinct_symbols(front);
        lemma_distinct_symbols(front);
        assert forall|c: char| distinct_symbols(text).contains(c) <==> text.contains(c) by {
            lemma_occurrences(text, c);
            lemma_occurrences(front, c);
            if earlier.contains(last) {
            } else {
                let symbols = earlier.push(last);
                if symbols.contains(c) {
                    let i = choose|i: int| 0 <= i < symbols.len() && symbols[i] == c;
                    if i < earlier.len() {
                        assert(earlier[i] == c);
                    }
                }
                if earlier.contains(c) {
                    let i = choose|i: int| 0 <= i < earlier.len() && earlier[i] == c;
                    assert(symbols[i] == c);
                }
                if c == last {
                    assert(symbols[earlier.len() as int] == c);
                }
            }
        }
    }
}

/// What one more symbol at the end of the text does to the frequency table:
/// the count of its entry goes up by one, or a new entry with count one is
/// added at the end.
pub proof fn lemma_frequency_table_push(text: Seq<char>, c: char)
    requires
        text.len() < u64::MAX,
    ensures
        forall|i: int|
            0 <= i < frequency_table(text).len() && (#[trigger] frequency_table(text)[i]).0 == c
                ==> frequency_table(text.push(c)) == frequency_table(text).update(
                i,
                (c, (frequency_table(text)[i].1 + 1) as u64),
            ),
        (forall|i: int|
            0 <= i < frequency_table(text).len() ==> (#[trigger] frequency_table(text)[i]).0 != c)
            ==> frequency_table(text.push(c)) == frequency_table(text).push((c, 1u64)),
{
    let longer = text.push(c);
    let symbols = distinct_symbols(text);
    let before = frequency_table(text);
    let after = frequency_table(longer);
    assert(longer.drop_last() =~= text);
    lemma_distinct_symbols(text);
    lemma_occurrences(text, c);
    assert forall|i: int| 0 <= i < before.len() && (#[trigger] before[i]).0 == c implies after
        == before.update(i, (c, (before[i].1 + 1) as u64)) by {
        assert(symbols[i] == c);
        assert(symbols.contains(c));
        assert(distinct_symbols(longer) == symbols);
        let expected = before.update(i, (c, (before[i].1 + 1) as u64));
        assert forall|j: int| 0 <= j < after.len() implies after[j] == expected[j] by {
            lemma_occurrences(text, symbols[j]);
        }
        assert(after =~= expected);
    }
    if forall|i: int| 0 <= i < before.len() ==> (#[trigger] before[i]).0 != c {
        if symbols.contains(c) {
            let i = choose|i: int| 0 <= i < symbols.len() && symbols[i] == c;
            assert(before[i].0 == c);
        }
        assert(distinct_symbols(longer) == symbols.push(c));
        let expected = before.push((c, 1u64));
        assert forall|j: int| 0 <= j < after.len() implies after[j] == expected[j] by {
            if j < symbols.len() {
                lemma_occurrences(text, symbols[j]);
                assert(symbols[j] != c) by {
                    assert(before[j].0 != c);
                }
            }
        }
        assert(after =~= expected);
    }
}

/// Replacing one entry changes the sum of a table by the difference of the
/// two frequencies.
pub proof fn lemma_total_frequency_update(table: Seq<(char, u64)>, i: int, entry: (char, u64))
    requires
        0 <= i < table.len(),
    ensures
        total_frequency(table.update(i, entry)) == total_frequency(table) - table[i].1 + entry.1,
    decreases table.len(),
{
    let changed = table.update(i, entry);
    if i == table.len() - 1 {
        assert(changed.drop_last() =~= table.drop_last());
    } else {
        lemma_total_frequency_update(table.drop_last(), i, entry);
        assert(changed.drop_last() =~= table.drop_last().update(i, entry));
    }
}

/// The frequencies of the table of a text add up to the length of the text.
pub proof fn lemma_frequency_table_total(text: Seq<char>)
    requires
        text.len() <= u64::MAX,
    ensures
        total_frequency(frequency_table(text)) == text.len(),
    decreases text.len(),
{
    if text.len() == 0 {
        assert(frequency_table(text) =~= Seq::empty());
    } else {
        let front = text.drop_last();
        let c = text.last();
        let before = frequency_table(front);
        assert(front.push(c) =~= text);
        lemma_frequency_table_total(front);
        lemma_frequency_table_push(front, c);
        lemma_occurrences(front, c);
        if exists|i: int| 0 <= i < before.len() && (#[trigger] before[i]).0 == c {
            let i = choose|i: int| 0 <= i < before.len() && (#[trigger] before[i]).0 == c;
            lemma_total_frequency_update(before, i, (c, (before[i].1 + 1) as u64));
        } else {
            assert(before.push((c, 1u64)).drop_last() =~= before);
        }
    }
}

/// A text has at most as many characters as its UTF-8 form has bytes.
pub proof fn lemma_characters_fit(text: Seq<char>)
    ensures
        text.len() <= vstd::utf8::encode_utf8(text).len(),
    decreases text.len(),
{
    if text.len() > 0 {
        lemma_characters_fit(text.drop_first());
    }
}

/// The first entry of `table` for `c`, if there is one.
fn find_entry(table: &Vec<(char, u64)>, c: char) -> (found: Option<usize>)
    ensures
        match found {
            Some(i) => i < table.len() && table[i as int].0 == c,
            None => forall|j: int| 0 <= j < table.len() ==> (#[trigger] table[j]).0 != c,
        },
{
    let mut i: usize = 0;
    while i < table.len()
        invariant
            i <= table.len(),
            forall|j: int| 0 <= j < i ==> (#[trigger] table[j]).0 != c,
        decreases table.len() - i,
    {
        if table[i].0 == c {
            return Some(i);
        }
        i += 1;
    }
    None
}

/// Counts how often each symbol occurs in `text`. The table has one entry for
/// each distinct symbol, in the order in which the symbols first occur; an
/// empty text gives an empty table.
pub fn count_frequencies(text: &str) -> (table: Vec<(char, u64)>)
    ensures
        table@ == frequency_table(text@),
        total_frequency(table@) == text@.len(),
        text@.len() <= usize::MAX,
        table@.len() == 0 <==> text@.len() == 0,
        distinct_entries(table@),
        forall|i: int|
            0 <= i < table@.len() ==> text@.contains((#[trigger] table@[i]).0) && table@[i].1
                == occurrences(text@, table@[i].0) && table@[i].1 >= 1,
        forall|k: int| 0 <= k < text@.len() ==> has_entry(table@, #[trigger] text@[k]),
{
    let bytes = text.as_bytes();
    let mut table: Vec<(char, u64)> = Vec::new();
    let mut rest = text.chars();
    let ghost mut seen: Seq<char> = Seq::empty();
    proof {
        lemma_characters_fit(text@);
        assert(bytes@.len() == vstd::slice::spec_slice_len(bytes));
        assert(frequency_table(seen) =~= Seq::empty());
    }
    loop
        invariant
            text@ == seen + rest.remaining(),
            rest.obeys_prophetic_iter_laws(),
            rest.decrease() is Some,
            table@ == frequency_table(seen),
            text@.len() <= usize::MAX,
        ensures
            table@ == frequency_table(text@),
        decreases rest.decrease()->0,
    {
        match rest.next() {
            None => {
                assert(text@ == seen);
                break ;
            },
            Some(c) => {
                proof {
                    lemma_frequency_table_push(seen, c);
                    lemma_occurrences(seen, c);
                    assert(seen.push(c) + rest.remaining() == text@);
                }
                match find_entry(&table, c) {
                    Some(i) => {
                        let count: u64 = table[i].1;
                        assert(distinct_symbols(seen)[i as int] == c);
                        table[i] = (c, count + 1);
                    },
                    None => {
                        table.push((c, 1));
                    },
                }
                proof {
                    seen = seen.push(c);
                }
            },
        }
    }
    proof {
        lemma_frequency_table_total(text@);
        lemma_frequency_table_properties(text@);
    }
    table
}

/// What the frequency table of a text holds: every symbol of the text once,
/// with the number of its occurrences, which is at least one.
pub proof fn lemma_frequency_table_properties(text: Seq<char>)
    requires
        text.len() <= u64::MAX,
    ensures
        frequency_table(text).len() == 0 <==> text.len() == 0,
        frequency_table(text).len() <= text.len(),
        distinct_entries(frequency_table(text)),
        forall|i: int|
            0 <= i < frequency_table(text).len() ==> text.contains(
                (#[trigger] frequency_table(text)[i]).0,
            ) && frequency_table(text)[i].1 == occurrences(text, frequency_table(text)[i].0)
                && frequency_table(text)[i].1 >= 1,
        forall|k: int|
            0 <= k < text.len() ==> has_entry(frequency_table(text), #[trigger] text[k]),
{
    let symbols = distinct_symbols(text);
    let table = frequency_table(text);
    lemma_distinct_symbols(text);
    if text.len() > 0 {
        assert(text.contains(text[0]));
        assert(symbols.contains(text[0]));
    }
    assert forall|i: int| 0 <= i < table.len() implies text.contains((#[trigger] table[i]).0)
        && table[i].1 == occurrences(text, table[i].0) && table[i].1 >= 1 by {
        assert(symbols.contains(symbols[i]));
        lemma_occurrences(text, symbols[i]);
    }
    assert forall|k: int| 0 <= k < text.len() implies has_entry(table, #[trigger] text[k]) by {
        assert(text.contains(text[k]));
        assert(symbols.contains(text[k]));
        let i = choose|i: int| 0 <= i < symbols.len() && symbols[i] == text[k];
        assert(table[i].0 == text[k]);
    }
}

} // verus!
