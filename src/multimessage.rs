//! Messages of several pages, browsed with a "previous" and a "next" button.
use crate::errors::{decimal, decimal_string};
use crate::tools::{lemma_pieces_nonempty, pieces_of, split_on};
use vstd::prelude::*;
use vstd::string::StringExecFns;

verus! {

/// What a button identifier says: the buttons of a message of several pages have identifiers
/// that start with `mm`; the piece before the first `-` names the message, and a last piece
/// `n` means "next" (anything else means "previous"). Other identifiers are not page buttons.
pub open spec fn page_button(custom_id: Seq<char>) -> Option<(Seq<char>, bool)> {
    if custom_id.len() >= 2 && custom_id[0] == 'm' && custom_id[1] == 'm' {
        let pieces = pieces_of(custom_id, '-');
        Some((pieces[0], pieces.last() == seq!['n']))
    } else {
        None
    }
}

/// Reads a button identifier, as [`page_button`] says.
pub fn parse_page_button(custom_id: &Vec<char>) -> (r: Option<(Vec<char>, bool)>)
    ensures
        match page_button(custom_id@) {
            Some((key, next)) => r is Some && r->Some_0.0@ == key && r->Some_0.1 == next,
            None => r is None,
        },
{
    if custom_id.len() >= 2 && custom_id[0] == 'm' && custom_id[1] == 'm' {
        let mut pieces = split_on(custom_id, '-');
        let ghost p = pieces@.map_values(|w: Vec<char>| w@);
        proof {
            lemma_pieces_nonempty(custom_id@, '-');
            assert(p.len() == pieces@.len());
            assert(p[0] == pieces@[0]@);
            assert(p[p.len() - 1] == pieces@[pieces@.len() - 1]@);
        }
        let n = pieces.len();
        let last = &pieces[n - 1];
        let next = last.len() == 1 && last[0] == 'n';
        proof {
            if next {
                assert(last@ =~= seq!['n']);
            }
        }
        let key = pieces.swap_remove(0);
        Some((key, next))
    } else {
        None
    }
}

/// The page shown after a press on a button, with whether it is the first page and whether it
/// is the last. The position moves by one page and stays within the pages.
pub fn turn_page(position: usize, next: bool, pages: usize) -> (r: (usize, bool, bool))
    requires
        position < pages,
    ensures
        r.0 == (if next && position + 1 < pages {
            position + 1
        } else if !next && position > 0 {
            position - 1
        } else {
            position as int
        }),
        r.0 < pages,
        r.1 == (r.0 == 0),
        r.2 == (r.0 + 1 == pages),
{
    let p = if next && position + 1 < pages {
        position + 1
    } else if !next && position > 0 {
        position - 1
    } else {
        position
    };
    (p, p == 0, p + 1 == pages)
}

/// The footer of page `page` (counted from one) of a message of `total` pages.
pub open spec fn page_label(page: nat, total: nat) -> Seq<char> {
    "Page "@ + decimal(page) + " / "@ + decimal(total)
}

/// The footers of the pages of a message of `total` pages, in order.
pub fn page_labels(total: usize) -> (r: Vec<String>)
    ensures
        r@.len() == total,
        forall|i: int| 0 <= i < total ==> (#[trigger] r@[i])@ == page_label((i + 1) as nat, total as nat),
{
    let mut r: Vec<String> = Vec::new();
    let count = decimal_string(total as u64);
    let mut i: usize = 0;
    while i < total
        invariant
            0 <= i <= total,
            r@.len() == i,
            count@ == decimal(total as nat),
            forall|j: int| 0 <= j < i ==> (#[trigger] r@[j])@ == page_label((j + 1) as nat, total as nat),
        decreases total - i,
    {
        let label = String::from_str("Page ").concat(decimal_string((i + 1) as u64).as_str()).concat(" / ").concat(
            count.as_str(),
        );
        r.push(label);
        i = i + 1;
    }
    r
}

} // verus!
