//! The renderer: an indented, tree-shaped listing of the live enumeration,
//! with descriptions attached to the entries that have one.
//!
//! The enumeration order is the display order; indentation is purely
//! depth-based, two spaces per component past the first.
use vstd::prelude::*;
use vstd::string::StringExecFns;
use crate::paths::slash_count;
use crate::paths::strs_view;
use crate::store::Store;

verus! {

/// The indent for depth `d`: two spaces per level.
pub open spec fn indent_sp(d: nat) -> Seq<char>
    decreases d,
{
    if d == 0 {
        Seq::empty()
    } else {
        seq![' ', ' '] + indent_sp((d - 1) as nat)
    }
}

/// The indent is all spaces, two per level.
pub proof fn lemma_indent_sp(d: nat)
    ensures
        indent_sp(d).len() == 2 * d,
        forall|i: int| 0 <= i < indent_sp(d).len() ==> indent_sp(d)[i] == ' ',
    decreases d,
{
    if d > 0 {
        lemma_indent_sp((d - 1) as nat);
        assert forall|i: int| 0 <= i < indent_sp(d).len() implies indent_sp(d)[i] == ' ' by {
            if i >= 2 {
                assert(indent_sp(d)[i] == indent_sp((d - 1) as nat)[i - 2]);
            }
        }
    }
}

/// The lines one entry of the enumeration contributes: its description, if
/// it has one, on the same line after a comment marker (inline) or on its
/// own line before the entry (otherwise).
pub open spec fn entry_lines(
    m: Map<Seq<char>, Seq<char>>,
    file: Seq<char>,
    inline: bool,
) -> Seq<Seq<char>> {
    let ind = indent_sp(slash_count(file));
    if m.dom().contains(file) {
        let d = m[file];
        if inline {
            seq![ind + file + (" // ")@ + d]
        } else {
            seq![ind + (" // ")@ + d, ind + file]
        }
    } else {
        seq![ind + file]
    }
}

/// The rendered listing: each entry's lines, in enumeration order.
pub open spec fn render_spec(
    m: Map<Seq<char>, Seq<char>>,
    files: Seq<Seq<char>>,
    inline: bool,
) -> Seq<Seq<char>>
    decreases files.len(),
{
    if files.len() == 0 {
        Seq::empty()
    } else {
        render_spec(m, files.drop_last(), inline) + entry_lines(m, files.last(), inline)
    }
}

/// Builds the indent string for depth `d`.
fn make_indent(d: usize) -> (r: String)
    ensures
        r@ == indent_sp(d as nat),
{
    let mut r = String::new();
    let mut j: usize = 0;
    while j < d
        invariant
            j <= d,
            r@.len() == 2 * j,
            forall|i: int| 0 <= i < r@.len() ==> r@[i] == ' ',
        decreases d - j,
    {
        crate::codec::push_char(&mut r, ' ');
        crate::codec::push_char(&mut r, ' ');
        j = j + 1;
    }
    proof {
        lemma_indent_sp(d as nat);
        assert(r@ =~= indent_sp(d as nat));
    }
    r
}

/// Renders the live enumeration against the store's descriptions, one
/// `String` per output line, in enumeration order.
pub fn render(store: &Store, files: &Vec<String>, inline: bool) -> (r: Vec<String>)
    requires
        store.wf(),
    ensures
        strs_view(r@) == render_spec(store@, strs_view(files@), inline),
{
    let n = files.len();
    let mut r: Vec<String> = Vec::new();
    let mut i: usize = 0;
    proof {
        assert(strs_view(files@).take(0) =~= Seq::<Seq<char>>::empty());
        assert(strs_view(r@) =~= Seq::<Seq<char>>::empty());
    }
    while i < n
        invariant
            i <= n,
            n == files@.len(),
            store.wf(),
            strs_view(r@) == render_spec(store@, strs_view(files@).take(i as int), inline),
        decreases n - i,
    {
        let ghost r_before = r@;
        let file = &files[i];
        let d = crate::paths::depth(file.as_str());
        let ind = make_indent(d);
        match store.get(file.as_str()) {
            Some(desc) => {
                if inline {
                    let mut line = ind;
                    line.append(file.as_str());
                    line.append(" // ");
                    line.append(desc.as_str());
                    r.push(line);
                } else {
                    let mut first = ind.clone();
                    first.append(" // ");
                    first.append(desc.as_str());
                    r.push(first);
                    let mut second = ind;
                    second.append(file.as_str());
                    r.push(second);
                }
            },
            None => {
                let mut line = ind;
                line.append(file.as_str());
                r.push(line);
            },
        }
        proof {
            let fv = strs_view(files@);
            assert(fv.take(i + 1).drop_last() =~= fv.take(i as int));
            assert(fv.take(i + 1).last() == fv[i as int]);
            assert(fv[i as int] == file@);
            assert(strs_view(r@) =~= strs_view(r_before) + entry_lines(store@, file@, inline));
        }
        i = i + 1;
    }
    proof {
        assert(strs_view(files@).take(n as int) =~= strs_view(files@));
    }
    r
}

} // verus!
