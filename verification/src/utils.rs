//! Drawing a board as text, with box-drawing lines, a hovered square drawn
//! with heavy lines, a selected square marked `<` `>`, and lines of
//! properties beside the ranks.
use vstd::prelude::*;
use crate::square::Square;
use crate::text::push_char;

verus! {

/// The line between two files of a border: heavy or light.
pub open spec fn horizontal(thick: bool) -> Seq<char> {
    if thick { "━━━"@ } else { "───"@ }
}

/// The vertical line between two squares: heavy or light.
pub open spec fn vertical(thick: bool) -> char {
    if thick { '┃' } else { '│' }
}

/// The files `i..7` of a border whose file `sel` is hovered (8 for none),
/// each followed by a joint: heavy on the right of the hovered file, on its
/// left the third form.
pub open spec fn border_files(sel: int, mid: (char, char, char), i: int) -> Seq<char>
    decreases 7 - i,
{
    if i >= 7 {
        Seq::empty()
    } else {
        horizontal(sel == i) + seq![if sel == i { mid.1 } else if sel == i + 1 { mid.2 } else { mid.0 }]
            + border_files(sel, mid, i + 1)
    }
}

/// A border line whose file `sel` is hovered (8 for none).
pub open spec fn border_spec(sel: int, start: (char, char), mid: (char, char, char), end: (char, char)) -> Seq<char> {
    "  "@ + seq![if sel == 0 { start.1 } else { start.0 }] + border_files(sel, mid, 0) + horizontal(sel == 7)
        + seq![if sel == 7 { end.1 } else { end.0 }, '\n']
}

/// The squares of files `f..8` of rank `r` (`1..=8`): a line, heavy next to
/// the hovered square, the mark of the selected square and the cell.
pub open spec fn rank_cells(cells: Seq<char>, hr: int, hf: int, sr: int, sf: int, r: int, f: int) -> Seq<char>
    decreases 8 - f,
{
    if f >= 8 {
        Seq::empty()
    } else {
        let is_hovered = hr == r - 1;
        let marked = sr == r - 1 && sf == f;
        seq![
            vertical(is_hovered && (hf == f || hf + 1 == f)),
            if marked { '<' } else { ' ' },
            cells[(r - 1) * 8 + f],
            if marked { '>' } else { ' ' },
        ] + rank_cells(cells, hr, hf, sr, sf, r, f + 1)
    }
}

/// The line of rank `r` (`1..=8`) with its property, if any: its name, and
/// after a colon its value when that is not empty.
pub open spec fn rank_line(
    cells: Seq<char>,
    hr: int,
    hf: int,
    sr: int,
    sf: int,
    props: Seq<(Seq<char>, Seq<char>)>,
    r: int,
) -> Seq<char> {
    let is_hovered = hr == r - 1;
    seq![((r + 48) as u8) as char, ' '] + rank_cells(cells, hr, hf, sr, sf, r, 0) + seq![
        vertical(is_hovered && hf == 7),
    ] + (if props.len() > 8 - r {
        seq![' '] + props[8 - r].0 + (if props[8 - r].1.len() > 0 {
            ": "@ + props[8 - r].1
        } else {
            Seq::empty()
        })
    } else {
        Seq::empty()
    }) + seq!['\n']
}

/// The border below rank `r` (`1..=8`).
pub open spec fn border_below(hr: int, hf: int, r: int) -> Seq<char> {
    if r == 1 {
        border_spec(if hr == 0 { hf } else { 8 }, ('└', '┗'), ('┴', '┹', '┺'), ('┘', '┛'))
    } else if hr == r - 2 {
        border_spec(hf, ('├', '┢'), ('┼', '╅', '╆'), ('┤', '┪'))
    } else {
        border_spec(if hr == r - 1 { hf } else { 8 }, ('├', '┡'), ('┼', '╃', '╄'), ('┤', '┩'))
    }
}

/// The ranks `8..=9-k`, each with the border below it.
pub open spec fn ranks_text(
    cells: Seq<char>,
    hr: int,
    hf: int,
    sr: int,
    sf: int,
    props: Seq<(Seq<char>, Seq<char>)>,
    k: nat,
) -> Seq<char>
    decreases k,
{
    if k == 0 {
        Seq::empty()
    } else {
        let r = 9 - k;
        ranks_text(cells, hr, hf, sr, sf, props, (k - 1) as nat) + rank_line(cells, hr, hf, sr, sf, props, r)
            + border_below(hr, hf, r)
    }
}

/// The rank of an optional square, 8 for none.
pub open spec fn rank_or_none(sq: Option<Square>) -> int {
    match sq {
        Some(s) => s.0 as int / 8,
        None => 8,
    }
}

/// The file of an optional square, 8 for none.
pub open spec fn file_or_none(sq: Option<Square>) -> int {
    match sq {
        Some(s) => s.0 as int % 8,
        None => 8,
    }
}

/// The drawing of the board whose square `i` shows `cells[i]`, with the
/// square `hovered` and the square `selected`, and `props` beside the ranks
/// from rank 8 down.
pub open spec fn grid_text(
    cells: Seq<char>,
    hovered: Option<Square>,
    selected: Option<Square>,
    props: Seq<(Seq<char>, Seq<char>)>,
) -> Seq<char> {
    let hr = rank_or_none(hovered);
    let hf = file_or_none(hovered);
    let sr = rank_or_none(selected);
    let sf = file_or_none(selected);
    "    A   B   C   D   E   F   G   H\n"@ + border_spec(
        if hr == 7 { hf } else { 8 },
        ('┌', '┏'),
        ('┬', '┱', '┲'),
        ('┐', '┓'),
    ) + ranks_text(cells, hr, hf, sr, sf, props, 8)
}

/// Appends a border line whose file `selected_index` is hovered (8 for
/// none) to `printed`.
fn border(
    printed: &mut String,
    selected_index: u8,
    start: (char, char),
    mid: (char, char, char),
    end: (char, char),
)
    requires
        selected_index <= 8,
    ensures
        final(printed)@ == old(printed)@ + border_spec(selected_index as int, start, mid, end),
{
    let sel = selected_index;
    printed.append("  ");
    push_char(printed, if sel == 0 { start.1 } else { start.0 });
    let ghost base = printed@;
    let mut i: u8 = 0;
    while i < 7
        invariant
            i <= 7,
            printed@ + border_files(sel as int, mid, i as int) == base + border_files(sel as int, mid, 0),
        decreases 7 - i,
    {
        let ghost before = printed@;
        printed.append(if sel == i { "━━━" } else { "───" });
        push_char(printed, if sel == i { mid.1 } else if sel == i + 1 { mid.2 } else { mid.0 });
        assert(printed@ + border_files(sel as int, mid, i + 1) =~= before + border_files(sel as int, mid, i as int));
        i = i + 1;
    }
    assert(border_files(sel as int, mid, 7) =~= Seq::<char>::empty());
    printed.append(if sel == 7 { "━━━" } else { "───" });
    push_char(printed, if sel == 7 { end.1 } else { end.0 });
    push_char(printed, '\n');
    assert(printed@ =~= old(printed)@ + border_spec(sel as int, start, mid, end));
}

/// Appends the line of rank `rank_index` (see `rank_line`) to `printed`.
fn push_rank_line(
    printed: &mut String,
    cells: &[char; 64],
    hr: u8,
    hf: u8,
    sr: u8,
    sf: u8,
    props: &Vec<(String, String)>,
    rank_index: u8,
)
    requires
        1 <= rank_index <= 8,
    ensures
        final(printed)@ == old(printed)@ + rank_line(
            cells@,
            hr as int,
            hf as int,
            sr as int,
            sf as int,
            props@.map_values(|p: (String, String)| (p.0@, p.1@)),
            rank_index as int,
        ),
{
    let ghost ps = props@.map_values(|p: (String, String)| (p.0@, p.1@));
    let is_hovered = hr == rank_index - 1;
    let is_selected = sr == rank_index - 1;
    push_char(printed, (rank_index + 48) as char);
    push_char(printed, ' ');
    let ghost cells_start = printed@;
    let mut file_index: u8 = 0;
    while file_index < 8
        invariant
            file_index <= 8,
            1 <= rank_index <= 8,
            is_hovered == (hr == rank_index - 1),
            is_selected == (sr == rank_index - 1),
            printed@ + rank_cells(cells@, hr as int, hf as int, sr as int, sf as int, rank_index as int, file_index as int)
                == cells_start + rank_cells(cells@, hr as int, hf as int, sr as int, sf as int, rank_index as int, 0),
        decreases 8 - file_index,
    {
        let ghost b = printed@;
        push_char(printed, if is_hovered && (hf == file_index || hf as u16 + 1 == file_index as u16) { '┃' } else { '│' });
        let marked = is_selected && sf == file_index;
        push_char(printed, if marked { '<' } else { ' ' });
        push_char(printed, cells[((rank_index - 1) * 8 + file_index) as usize]);
        push_char(printed, if marked { '>' } else { ' ' });
        assert(printed@ + rank_cells(cells@, hr as int, hf as int, sr as int, sf as int, rank_index as int, file_index + 1)
            =~= b + rank_cells(cells@, hr as int, hf as int, sr as int, sf as int, rank_index as int, file_index as int));
        file_index = file_index + 1;
    }
    assert(rank_cells(cells@, hr as int, hf as int, sr as int, sf as int, rank_index as int, 8) =~= Seq::<char>::empty());
    push_char(printed, if is_hovered && hf == 7 { '┃' } else { '│' });
    let index = (8 - rank_index) as usize;
    if props.len() > index {
        push_char(printed, ' ');
        printed.append(props[index].0.as_str());
        if !props[index].1.as_str().is_empty() {
            printed.append(": ");
            printed.append(props[index].1.as_str());
        }
    }
    push_char(printed, '\n');
    assert(printed@ =~= old(printed)@ + rank_line(cells@, hr as int, hf as int, sr as int, sf as int, ps, rank_index as int));
}

/// Appends the border below rank `rank_index` (see `border_below`) to
/// `printed`.
fn push_border_below(printed: &mut String, hr: u8, hf: u8, rank_index: u8)
    requires
        1 <= rank_index <= 8,
        hf <= 8,
    ensures
        final(printed)@ == old(printed)@ + border_below(hr as int, hf as int, rank_index as int),
{
    if rank_index == 1 {
        border(printed, if hr == 0 { hf } else { 8 }, ('└', '┗'), ('┴', '┹', '┺'), ('┘', '┛'));
    } else if hr == rank_index - 2 {
        border(printed, hf, ('├', '┢'), ('┼', '╅', '╆'), ('┤', '┪'));
    } else {
        border(printed, if hr == rank_index - 1 { hf } else { 8 }, ('├', '┡'), ('┼', '╃', '╄'), ('┤', '┩'));
    }
}

/// Draws the board whose square `i` shows `cells[i]` (see `grid_text`).
pub fn grid_to_string_with_props(
    cells: &[char; 64],
    hovered: Option<Square>,
    selected: Option<Square>,
    props: &Vec<(String, String)>,
) -> (r: String)
    ensures
        r@ == grid_text(cells@, hovered, selected, props@.map_values(|p: (String, String)| (p.0@, p.1@))),
{
    let ghost ps = props@.map_values(|p: (String, String)| (p.0@, p.1@));
    let mut printed = String::from_str("    A   B   C   D   E   F   G   H\n");
    let hovered_rank_index: u8 = match hovered {
        Some(s) => s.0 / 8,
        None => 8,
    };
    let hovered_file_index: u8 = match hovered {
        Some(s) => s.0 % 8,
        None => 8,
    };
    let selected_rank_index: u8 = match selected {
        Some(s) => s.0 / 8,
        None => 8,
    };
    let selected_file_index: u8 = match selected {
        Some(s) => s.0 % 8,
        None => 8,
    };
    let hr = hovered_rank_index;
    let hf = hovered_file_index;
    border(&mut printed, if hr == 7 { hf } else { 8 }, ('┌', '┏'), ('┬', '┱', '┲'), ('┐', '┓'));
    let ghost head = printed@;
    let mut k: u8 = 0;
    while k < 8
        invariant
            k <= 8,
            hf <= 8,
            hr == rank_or_none(hovered),
            hf == file_or_none(hovered),
            selected_rank_index == rank_or_none(selected),
            selected_file_index == file_or_none(selected),
            ps == props@.map_values(|p: (String, String)| (p.0@, p.1@)),
            printed@ == head + ranks_text(cells@, hr as int, hf as int, selected_rank_index as int, selected_file_index as int, ps, k as nat),
        decreases 8 - k,
    {
        let rank_index: u8 = 8 - k;
        push_rank_line(&mut printed, cells, hr, hf, selected_rank_index, selected_file_index, props, rank_index);
        push_border_below(&mut printed, hr, hf, rank_index);
        k = k + 1;
        assert(printed@ =~= head + ranks_text(cells@, hr as int, hf as int, selected_rank_index as int, selected_file_index as int, ps, k as nat));
    }
    printed
}

/// Draws the board whose square `i` shows `cells[i]`, without properties.
pub fn grid_to_string(cells: &[char; 64], hovered: Option<Square>, selected: Option<Square>) -> (r: String)
    ensures
        r@ == grid_text(cells@, hovered, selected, Seq::empty()),
{
    let props: Vec<(String, String)> = Vec::new();
    let r = grid_to_string_with_props(cells, hovered, selected, &props);
    assert(props@.map_values(|p: (String, String)| (p.0@, p.1@)) =~= Seq::<(Seq<char>, Seq<char>)>::empty());
    r
}

} // verus!
