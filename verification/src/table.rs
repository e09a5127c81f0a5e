//! Looking up rows of an insertion-ordered table.

use vstd::prelude::*;

verus! {

/// The first row at or after `from` that is wanted, if there is one.
pub open spec fn first_match<T>(rows: Seq<T>, wanted: spec_fn(T) -> bool, from: int) -> Option<int>
    decreases rows.len() - from,
{
    if from < 0 || from >= rows.len() {
        None
    } else if wanted(rows[from]) {
        Some(from)
    } else {
        first_match(rows, wanted, from + 1)
    }
}

/// What `first_match` finds is the first wanted row; where it finds none,
/// no row is wanted.
pub proof fn lemma_first_match<T>(rows: Seq<T>, wanted: spec_fn(T) -> bool, from: int)
    requires
        0 <= from,
    ensures
        match first_match(rows, wanted, from) {
            Some(row) => from <= row < rows.len() && wanted(rows[row]) && forall|j: int|
                from <= j < row ==> !wanted(#[trigger] rows[j]),
            None => forall|j: int| from <= j < rows.len() ==> !wanted(#[trigger] rows[j]),
        },
    decreases rows.len() - from,
{
    if from < rows.len() && !wanted(rows[from]) {
        lemma_first_match(rows, wanted, from + 1);
    }
}

/// The characters of each text of a table.
pub open spec fn texts_view(texts: Seq<String>) -> Seq<Seq<char>> {
    texts.map_values(|text: String| text@)
}

/// Rows equal to the given text.
pub open spec fn text_is(text: Seq<char>) -> spec_fn(Seq<char>) -> bool {
    |row: Seq<char>| row == text
}

/// The table with `text` in it, and the row that holds it. A text that the
/// table already holds keeps its row.
pub open spec fn intern_text(table: Seq<Seq<char>>, text: Seq<char>) -> (Seq<Seq<char>>, int) {
    match first_match(table, text_is(text), 0) {
        Some(row) => (table, row),
        None => (table.push(text), table.len() as int),
    }
}

/// Interning a text keeps every row in place and yields a row that holds
/// the text.
pub proof fn lemma_intern_text(table: Seq<Seq<char>>, text: Seq<char>)
    ensures
        table.len() <= intern_text(table, text).0.len() <= table.len() + 1,
        forall|i: int| 0 <= i < table.len() ==> intern_text(table, text).0[i] == table[i],
        0 <= intern_text(table, text).1 < intern_text(table, text).0.len(),
        intern_text(table, text).0[intern_text(table, text).1] == text,
{
    lemma_first_match(table, text_is(text), 0);
}

/// Looks `text` up in `table` and appends it if it is not there.
pub fn intern(table: &mut Vec<String>, text: &String) -> (row: usize)
    ensures
        (texts_view(final(table)@), row as int) == intern_text(texts_view(old(table)@), text@),
        row < final(table).len(),
{
    let ghost rows = texts_view(table@);
    let mut i: usize = 0;
    while i < table.len()
        invariant
            i <= table.len(),
            table == old(table),
            rows == texts_view(table@),
            first_match(rows, text_is(text@), 0) == first_match(rows, text_is(text@), i as int),
        decreases table.len() - i,
    {
        if table[i].eq(text) {
            return i;
        }
        i += 1;
    }
    table.push(text.clone());
    proof {
        assert(texts_view(table@) =~= rows.push(text@));
    }
    i
}

} // verus!
