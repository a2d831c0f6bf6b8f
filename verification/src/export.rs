//! Text helpers of the exporters.

use vstd::prelude::*;

use crate::text::{
    chars_to_string, find_char, lemma_first_index_of, replace, replace_chars,
    str_chars,
};

verus! {

/// Whether a CSV field must be quoted: it holds a comma, a double quote or a line feed.
pub open spec fn needs_quotes(s: Seq<char>) -> bool {
    s.contains(',') || s.contains('"') || s.contains('\n')
}

/// A CSV field as RFC 4180 writes it: a field that needs quotes is put between double
/// quotes with every double quote in it doubled; any other field is kept as it is.
pub open spec fn csv_field(s: Seq<char>) -> Seq<char> {
    if needs_quotes(s) {
        seq!['"'] + replace(s, seq!['"'], seq!['"', '"']) + seq!['"']
    } else {
        s
    }
}

fn has_char(s: &[char], c: char) -> (r: bool)
    ensures
        r == s@.contains(c),
{
    proof {
        lemma_first_index_of(s@, c);
    }
    find_char(s, c).is_some()
}

/// Escapes a CSV field (see `csv_field`).
pub fn csv_escape(s: &str) -> (r: String)
    ensures
        r@ == csv_field(s@),
{
    let cs = str_chars(s);
    if has_char(&cs, ',') || has_char(&cs, '"') || has_char(&cs, '\n') {
        let quote = vec!['"'];
        let doubled = vec!['"', '"'];
        let inner = replace_chars(&cs, &quote, &doubled);
        let mut out: Vec<char> = Vec::new();
        out.push('"');
        let mut i: usize = 0;
        while i < inner.len()
            invariant
                i <= inner@.len(),
                out@ == seq!['"'] + inner@.take(i as int),
            decreases inner.len() - i,
        {
            out.push(inner[i]);
            i = i + 1;
            assert(out@ =~= seq!['"'] + inner@.take(i as int));
        }
        out.push('"');
        assert(inner@.take(inner@.len() as int) =~= inner@);
        assert(quote@ =~= seq!['"']);
        assert(doubled@ =~= seq!['"', '"']);
        chars_to_string(&out)
    } else {
        chars_to_string(&cs)
    }
}

} // verus!
