//! Vaults: small hand-drawn rooms that are stamped onto the board.
//!
//! A vault is drawn as text, one character per tile:
//! `.` is floor, `x` is wall, `>` is an exit, ` ` is void and `E` marks an edge
//! where other vaults may connect. A vault may define further symbols of its own.

use crate::floor::Tile;
use vstd::prelude::*;
use vstd::std_specs::iter::IteratorSpec;
use vstd::string::*;

verus! {

/// The vaults that a floor is generated from.
pub struct VaultSet {
    /// Identifiers of the vault resources.
    pub vaults: Vec<String>,
    /// Nodes per floor
    pub density: u32,
    /// ratio of halls to vaults.
    pub hall_ratio: i32,
}

#[derive(Clone, Debug)]
pub struct Vault {
    /// The tiles, row by row; `None` is void.
    pub tiles: Vec<Option<Tile>>,
    pub width: usize,
    /// Characters to place, by position within the vault and sheet identifier.
    pub characters: Vec<(i32, i32, String)>,
    /// Positions where other vaults may connect.
    pub edges: Vec<(i32, i32)>,
}

/// What a symbol of a vault's drawing stands for.
#[derive(Clone, Debug)]
pub enum SymbolMeaning {
    Tile(Tile),
    Character { sheet: String, tile: Tile },
    Edge,
    Void,
}

#[derive(Clone, Debug, PartialEq, Eq)]
pub enum Error {
    MissingLayout,
    UnexpectedSymbol(char),
}

/// The number of bytes of `c` in UTF-8.
pub open spec fn char_width(c: char) -> nat {
    if (c as u32) < 0x80 {
        1
    } else if (c as u32) < 0x800 {
        2
    } else if (c as u32) < 0x10000 {
        3
    } else {
        4
    }
}

/// The number of bytes of `s` in UTF-8.
pub open spec fn byte_len(s: Seq<char>) -> nat
    decreases s.len(),
{
    if s.len() == 0 {
        0
    } else {
        byte_len(s.drop_last()) + char_width(s.last())
    }
}

/// The index of the first `'\n'` of `s`, if any.
pub open spec fn first_newline(s: Seq<char>) -> Option<int>
    decreases s.len(),
{
    if s.len() == 0 {
        None
    } else if s[0] == '\n' {
        Some(0)
    } else {
        match first_newline(s.skip(1)) {
            Some(i) => Some(i + 1),
            None => None,
        }
    }
}

proof fn lemma_first_newline(s: Seq<char>)
    ensures
        match first_newline(s) {
            Some(k) => 0 <= k < s.len() && s[k] == '\n' && forall|j: int| 0 <= j < k ==> s[j] != '\n',
            None => forall|j: int| 0 <= j < s.len() ==> s[j] != '\n',
        },
    decreases s.len(),
{
    if s.len() > 0 && s[0] != '\n' {
        lemma_first_newline(s.skip(1));
        assert forall|j: int| 1 <= j < s.len() implies s[j] == s.skip(1)[j - 1] by {}
    }
}

/// `line` without a trailing carriage return.
pub open spec fn strip_cr(line: Seq<char>) -> Seq<char> {
    if line.len() > 0 && line.last() == '\r' {
        line.drop_last()
    } else {
        line
    }
}

/// The lines of `s`, split at `"\n"` and `"\r\n"`; a final line ending is optional.
#[verifier::opaque]
pub open spec fn lines(s: Seq<char>) -> Seq<Seq<char>>
    decreases s.len(),
{
    if s.len() == 0 {
        Seq::empty()
    } else {
        match first_newline(s) {
            Some(i) => if 0 <= i < s.len() {
                seq![strip_cr(s.take(i))] + lines(s.skip(i + 1))
            } else {
                seq![s]
            },
            None => seq![s],
        }
    }
}

/// `ls` without its leading empty lines.
pub open spec fn skip_empty(ls: Seq<Seq<char>>) -> Seq<Seq<char>>
    decreases ls.len(),
{
    if ls.len() > 0 && ls[0].len() == 0 {
        skip_empty(ls.skip(1))
    } else {
        ls
    }
}

/// The largest byte length of the lines.
pub open spec fn max_width(ls: Seq<Seq<char>>) -> nat
    decreases ls.len(),
{
    if ls.len() == 0 {
        0
    } else {
        let w = max_width(ls.drop_last());
        let l = byte_len(ls.last());
        if w >= l { w } else { l }
    }
}

/// What the symbol `c` stands for: the first matching entry of `symbols`, or one of the built-in symbols.
pub open spec fn meaning_of(symbols: Seq<(char, SymbolMeaning)>, c: char) -> Option<SymbolMeaning>
    decreases symbols.len(),
{
    if symbols.len() == 0 {
        if c == '.' {
            Some(SymbolMeaning::Tile(Tile::Floor))
        } else if c == 'x' {
            Some(SymbolMeaning::Tile(Tile::Wall))
        } else if c == '>' {
            Some(SymbolMeaning::Tile(Tile::Exit))
        } else if c == ' ' {
            Some(SymbolMeaning::Void)
        } else if c == 'E' {
            Some(SymbolMeaning::Edge)
        } else {
            None
        }
    } else if symbols[0].0 == c {
        Some(symbols[0].1)
    } else {
        meaning_of(symbols.skip(1), c)
    }
}

/// The tile that a meaning places.
pub open spec fn tile_of(m: SymbolMeaning) -> Option<Tile> {
    match m {
        SymbolMeaning::Edge | SymbolMeaning::Void => None,
        SymbolMeaning::Tile(t) => Some(t),
        SymbolMeaning::Character { sheet: _, tile } => Some(tile),
    }
}

/// The tiles, characters (with sheet identifiers as text) and edges of a vault being read.
pub type Layout = (Seq<Option<Tile>>, Seq<(i32, i32, Seq<char>)>, Seq<(i32, i32)>);

/// Adds the symbol at column `x` of row `y` to a layout.
pub open spec fn place(l: Layout, m: SymbolMeaning, x: int, y: int) -> Layout {
    let pos = (x as i32, y as i32);
    (
        l.0.push(tile_of(m)),
        match m {
            SymbolMeaning::Character { sheet, tile: _ } => l.1.push((pos.0, pos.1, sheet@)),
            _ => l.1,
        },
        match m {
            SymbolMeaning::Edge => l.2.push(pos),
            _ => l.2,
        },
    )
}

/// Reads the symbols of `row` (row `y` of the drawing) into a layout; `Err` holds the first unknown symbol.
pub open spec fn read_row(
    l: Layout,
    row: Seq<char>,
    y: int,
    symbols: Seq<(char, SymbolMeaning)>,
) -> Result<Layout, char>
    decreases row.len(),
{
    if row.len() == 0 {
        Ok(l)
    } else {
        match read_row(l, row.drop_last(), y, symbols) {
            Err(c) => Err(c),
            Ok(l2) => match meaning_of(symbols, row.last()) {
                None => Err(row.last()),
                Some(m) => Ok(place(l2, m, row.len() - 1, y)),
            },
        }
    }
}

/// Reads the rows of a drawing, padding each to `width` bytes with void.
pub open spec fn read_rows(
    rows: Seq<Seq<char>>,
    width: nat,
    symbols: Seq<(char, SymbolMeaning)>,
) -> Result<Layout, char>
    decreases rows.len(),
{
    if rows.len() == 0 {
        Ok((Seq::empty(), Seq::empty(), Seq::empty()))
    } else {
        match read_rows(rows.drop_last(), width, symbols) {
            Err(c) => Err(c),
            Ok(l) => match read_row(l, rows.last(), rows.len() - 1, symbols) {
                Err(c) => Err(c),
                Ok(l2) => Ok(
                    (
                        l2.0 + Seq::new((width - byte_len(rows.last())) as nat, |i: int| None),
                        l2.1,
                        l2.2,
                    ),
                ),
            },
        }
    }
}

/// What a drawing reads as.
pub open spec fn parse_spec(source: Seq<char>, symbols: Seq<(char, SymbolMeaning)>) -> Result<
    (Layout, nat),
    char,
> {
    let rows = skip_empty(lines(source));
    let width = max_width(rows);
    match read_rows(rows, width, symbols) {
        Ok(l) => Ok((l, width)),
        Err(c) => Err(c),
    }
}

/// The layout that a vault holds.
pub open spec fn layout_of(v: Vault) -> Layout {
    (v.tiles@, v.characters@.map_values(|c: (i32, i32, String)| (c.0, c.1, c.2@)), v.edges@)
}

pub(crate) fn char_len(c: char) -> (res: usize)
    ensures
        res == char_width(c),
{
    let code = c as u32;
    if code < 0x80 {
        1
    } else if code < 0x800 {
        2
    } else if code < 0x10000 {
        3
    } else {
        4
    }
}

fn meaning(symbols: &[(char, SymbolMeaning)], c: char) -> (res: Option<SymbolMeaning>)
    ensures
        res == meaning_of(symbols@, c),
{
    let mut i: usize = 0;
    assert(symbols@.skip(0) == symbols@);
    while i < symbols.len()
        invariant
            0 <= i <= symbols@.len(),
            meaning_of(symbols@, c) == meaning_of(symbols@.skip(i as int), c),
        decreases symbols@.len() - i,
    {
        assert(symbols@.skip(i as int).skip(1) == symbols@.skip(i + 1));
        if symbols[i].0 == c {
            return Some(symbols[i].1.clone_meaning());
        }
        i += 1;
    }
    assert(symbols@.skip(i as int).len() == 0);
    if c == '.' {
        Some(SymbolMeaning::Tile(Tile::Floor))
    } else if c == 'x' {
        Some(SymbolMeaning::Tile(Tile::Wall))
    } else if c == '>' {
        Some(SymbolMeaning::Tile(Tile::Exit))
    } else if c == ' ' {
        Some(SymbolMeaning::Void)
    } else if c == 'E' {
        Some(SymbolMeaning::Edge)
    } else {
        None
    }
}

impl SymbolMeaning {
    /// A copy of this meaning.
    pub fn clone_meaning(&self) -> (res: SymbolMeaning)
        ensures
            res == *self,
    {
        match self {
            SymbolMeaning::Tile(t) => SymbolMeaning::Tile(*t),
            SymbolMeaning::Character { sheet, tile } => SymbolMeaning::Character {
                sheet: sheet.clone(),
                tile: *tile,
            },
            SymbolMeaning::Edge => SymbolMeaning::Edge,
            SymbolMeaning::Void => SymbolMeaning::Void,
        }
    }
}

proof fn lemma_lines_at_newline(s: Seq<char>, k: int)
    requires
        0 <= k < s.len(),
        s[k] == '\n',
        forall|j: int| 0 <= j < k ==> s[j] != '\n',
    ensures
        lines(s) == seq![strip_cr(s.take(k))] + lines(s.skip(k + 1)),
{
    reveal(lines);
    lemma_first_newline(s);
    let i = first_newline(s).unwrap();
    if i < k {
        assert(s[i] != '\n');
    }
    if i > k {
        assert(s[k] != '\n');
    }
}

proof fn lemma_lines_without_newline(s: Seq<char>)
    requires
        forall|j: int| 0 <= j < s.len() ==> s[j] != '\n',
    ensures
        lines(s) == if s.len() == 0 { Seq::<Seq<char>>::empty() } else { seq![s] },
{
    reveal(lines);
    lemma_first_newline(s);
    if let Some(k) = first_newline(s) {
        assert(s[k] != '\n');
    }
}

/// The contents of each line.
pub open spec fn line_views(ls: Seq<Vec<char>>) -> Seq<Seq<char>> {
    ls.map_values(|l: Vec<char>| l@)
}

fn split_lines(source: &str) -> (res: Vec<Vec<char>>)
    ensures
        line_views(res@) == lines(source@),
{
    let mut chars: Vec<char> = Vec::new();
    for c in it: source.chars()
        invariant
            it.seq() == source@,
            chars@ == source@.take(it.index()),
    {
        chars.push(c);
        assert(source@.take(it.index() + 1) == source@.take(it.index()).push(c));
    }
    assert(chars@ == source@);
    let mut res: Vec<Vec<char>> = Vec::new();
    let mut start: usize = 0;
    let ghost total = chars@;
    let mut line: Vec<char> = Vec::new();
    let mut i: usize = 0;
    while i < chars.len()
        invariant
            0 <= start <= i <= chars@.len(),
            chars@ == total,
            line@ == total.subrange(start as int, i as int),
            forall|j: int| start <= j < i ==> total[j] != '\n',
            lines(total) == line_views(res@) + lines(total.skip(start as int)),
        decreases chars@.len() - i,
    {
        let c = chars[i];
        if c == '\n' {
            let ghost rest = total.skip(start as int);
            proof {
                lemma_lines_at_newline(rest, (i - start) as int);
                assert(rest.take((i - start) as int) == line@);
                assert(rest.skip((i - start) + 1) == total.skip(i + 1));
            }
            let mut stripped = line;
            if stripped.len() > 0 && stripped[stripped.len() - 1] == '\r' {
                stripped.pop();
            }
            assert(stripped@ == strip_cr(rest.take((i - start) as int)));
            let ghost before = res@;
            res.push(stripped);
            assert(line_views(res@) == line_views(before).push(stripped@));
            assert(line_views(before) + lines(rest) == line_views(res@) + lines(total.skip(i + 1)));
            line = Vec::new();
            start = i + 1;
        } else {
            line.push(c);
        }
        i += 1;
    }
    let ghost rest = total.skip(start as int);
    proof {
        lemma_lines_without_newline(rest);
        assert(rest == line@);
    }
    if line.len() > 0 {
        let ghost before = res@;
        res.push(line);
        assert(line_views(res@) == line_views(before).push(rest));
    }
    assert(line_views(res@) == line_views(res@) + Seq::<Seq<char>>::empty());
    res
}

impl Vault {
    /// The number of rows of the vault.
    pub fn height(&self) -> (res: usize)
        requires
            self.width > 0,
        ensures
            res == self.tiles@.len() / (self.width as nat),
    {
        self.tiles.len() / self.width
    }

    /// Reads a vault from its drawing, using `symbols` before the built-in symbols.
    ///
    /// # Errors
    ///
    /// Returns an error naming the first symbol that has no meaning.
    pub fn parse(source: &str, symbols: &[(char, SymbolMeaning)]) -> (res: Result<Vault, Error>)
        requires
            byte_len(source@) <= usize::MAX,
        ensures
            match parse_spec(source@, symbols@) {
                Ok((l, w)) => res matches Ok(v) && layout_of(v) == l && v.width == w,
                Err(c) => res == Err::<Vault, Error>(Error::UnexpectedSymbol(c)),
            },
    {
        let all = split_lines(source);
        let ghost all_views = line_views(all@);
        proof {
            lemma_lines_byte_len(source@);
        }
        let mut first: usize = 0;
        assert(all_views.skip(0) == all_views);
        while first < all.len() && all[first].len() == 0
            invariant
                0 <= first <= all@.len(),
                all_views == line_views(all@),
                skip_empty(all_views) == skip_empty(all_views.skip(first as int)),
            decreases all@.len() - first,
        {
            assert(all_views.skip(first as int).skip(1) == all_views.skip(first + 1));
            first += 1;
        }
        let ghost rows = all_views.skip(first as int);
        assert(skip_empty(rows) == rows);
        assert forall|r: int| 0 <= r < rows.len() implies byte_len(#[trigger] rows[r]) <= usize::MAX by {
            assert(rows[r] == all_views[first + r]);
        }
        // The width of the vault is that of its widest row.
        let mut width: usize = 0;
        let mut r: usize = first;
        while r < all.len()
            invariant
                first <= r <= all@.len(),
                all_views == line_views(all@),
                rows == all_views.skip(first as int),
                forall|q: int| 0 <= q < rows.len() ==> byte_len(#[trigger] rows[q]) <= usize::MAX,
                width == max_width(rows.take(r - first)),
            decreases all@.len() - r,
        {
            assert(rows.take(r - first + 1).drop_last() == rows.take(r - first));
            assert(rows[r - first] == all@[r as int]@);
            let w = line_bytes(&all[r]);
            if w > width {
                width = w;
            }
            r += 1;
        }
        assert(rows.take(rows.len() as int) == rows);
        let mut tiles: Vec<Option<Tile>> = Vec::new();
        let mut characters: Vec<(i32, i32, String)> = Vec::new();
        let mut edges: Vec<(i32, i32)> = Vec::new();
        assert(rows.take(0) == Seq::<Seq<char>>::empty());
        assert(character_views(characters@) == Seq::<(i32, i32, Seq<char>)>::empty());
        assert(rows.len() == all@.len() - first);
        proof {
            lemma_max_width(rows);
        }
        let mut r: usize = first;
        while r < all.len()
            invariant
                first <= r <= all@.len(),
                all_views == line_views(all@),
                rows == all_views.skip(first as int),
                rows.len() == all@.len() - first,
                rows == skip_empty(lines(source@)),
                width == max_width(rows),
                forall|q: int| 0 <= q < rows.len() ==> byte_len(#[trigger] rows[q]) <= max_width(rows),
                read_rows(rows.take(r - first), width as nat, symbols@) == Ok::<Layout, char>(
                    (tiles@, character_views(characters@), edges@),
                ),
            decreases all@.len() - r,
        {
            let row = &all[r];
            let ghost y = r - first;
            assert(rows[y] == row@);
            let ghost start: Layout = (tiles@, character_views(characters@), edges@);
            let mut k: usize = 0;
            let mut bytes: usize = 0;
            assert(row@.take(0) == Seq::<char>::empty());
            while k < row.len()
                invariant
                    0 <= k <= row@.len(),
                    y == r - first,
                    0 <= y < rows.len(),
                    rows[y] == row@,
                    rows == skip_empty(lines(source@)),
                    width == max_width(rows),
                    read_rows(rows.take(y), width as nat, symbols@) == Ok::<Layout, char>(start),
                    bytes == byte_len(row@.take(k as int)),
                    byte_len(row@) <= width,
                    read_row(start, row@.take(k as int), y, symbols@) == Ok::<Layout, char>(
                        (tiles@, character_views(characters@), edges@),
                    ),
                decreases row@.len() - k,
            {
                let c = row[k];
                assert(row@.take(k + 1).drop_last() == row@.take(k as int));
                assert(row@.take(k + 1).last() == c);
                proof {
                    lemma_byte_len_prefix(row@, k + 1);
                }
                match meaning(symbols, c) {
                    None => {
                        proof {
                            lemma_read_row_error(start, row@, k + 1, y, symbols@);
                            assert(row@.take(row@.len() as int) == row@);
                            assert(rows.take(y + 1).drop_last() == rows.take(y));
                            assert(rows.take(y + 1).last() == row@);
                            assert(read_rows(rows.take(y + 1), width as nat, symbols@) == Err::<Layout, char>(c));
                            lemma_read_rows_error(rows, y + 1, width as nat, symbols@);
                        }
                        return Err(Error::UnexpectedSymbol(c));
                    },
                    Some(m) => {
                        let x = #[verifier::truncate] (k as i32);
                        let yy = #[verifier::truncate] ((r - first) as i32);
                        let ghost before: Layout = (tiles@, character_views(characters@), edges@);
                        match &m {
                            SymbolMeaning::Edge => {
                                edges.push((x, yy));
                            },
                            SymbolMeaning::Character { sheet, tile: _ } => {
                                characters.push((x, yy, sheet.clone()));
                            },
                            _ => {},
                        }
                        let t = match &m {
                            SymbolMeaning::Edge | SymbolMeaning::Void => None,
                            SymbolMeaning::Tile(t) => Some(*t),
                            SymbolMeaning::Character { sheet: _, tile } => Some(*tile),
                        };
                        tiles.push(t);
                        assert((tiles@, character_views(characters@), edges@) == place(before, m, k as int, y));
                    },
                }
                bytes = bytes + char_len(c);
                k += 1;
            }
            assert(row@.take(row@.len() as int) == row@);
            let ghost after_row: Layout = (tiles@, character_views(characters@), edges@);
            let mut pad: usize = 0;
            while pad < width - bytes
                invariant
                    0 <= pad <= width - bytes,
                    bytes <= width,
                    (tiles@, character_views(characters@), edges@) == (
                        after_row.0 + Seq::new(pad as nat, |i: int| None::<Tile>),
                        after_row.1,
                        after_row.2,
                    ),
                decreases width - bytes - pad,
            {
                tiles.push(None);
                pad += 1;
                assert((after_row.0 + Seq::new(pad as nat, |i: int| None::<Tile>)) == (after_row.0 + Seq::new((pad - 1) as nat, |i: int| None::<Tile>)).push(None));
            }
            assert(rows.take(y + 1).drop_last() == rows.take(y));
            assert(rows.take(y + 1).last() == row@);
            r += 1;
        }
        assert(rows.take(rows.len() as int) == rows);
        Ok(Vault { tiles, width, characters, edges })
    }
}

/// The characters of a vault, with sheet identifiers as text.
pub open spec fn character_views(cs: Seq<(i32, i32, String)>) -> Seq<(i32, i32, Seq<char>)> {
    cs.map_values(|c: (i32, i32, String)| (c.0, c.1, c.2@))
}

fn line_bytes(line: &Vec<char>) -> (res: usize)
    requires
        byte_len(line@) <= usize::MAX,
    ensures
        res == byte_len(line@),
{
    let mut bytes: usize = 0;
    let mut k: usize = 0;
    while k < line.len()
        invariant
            0 <= k <= line@.len(),
            byte_len(line@) <= usize::MAX,
            bytes == byte_len(line@.take(k as int)),
        decreases line@.len() - k,
    {
        assert(line@.take(k + 1).drop_last() == line@.take(k as int));
        proof {
            lemma_byte_len_prefix(line@, k + 1);
        }
        bytes = bytes + char_len(line[k]);
        k += 1;
    }
    assert(line@.take(line@.len() as int) == line@);
    bytes
}

proof fn lemma_max_width(ls: Seq<Seq<char>>)
    ensures
        forall|q: int| 0 <= q < ls.len() ==> byte_len(#[trigger] ls[q]) <= max_width(ls),
    decreases ls.len(),
{
    if ls.len() > 0 {
        lemma_max_width(ls.drop_last());
        assert forall|q: int| 0 <= q < ls.len() implies byte_len(#[trigger] ls[q]) <= max_width(ls) by {
            if q < ls.len() - 1 {
                assert(ls[q] == ls.drop_last()[q]);
            }
        }
    }
}

/// A line whose every character takes one byte.
pub open spec fn single_byte(line: Seq<char>) -> bool {
    forall|j: int| 0 <= j < line.len() ==> char_width(#[trigger] line[j]) == 1
}

proof fn lemma_single_byte_len(s: Seq<char>)
    requires
        single_byte(s),
    ensures
        byte_len(s) == s.len(),
    decreases s.len(),
{
    if s.len() > 0 {
        assert(char_width(s[s.len() - 1]) == 1);
        lemma_single_byte_len(s.drop_last());
    }
}

/// The tile drawn at column `x` of row `y` of `rows`; rows shorter than others are padded with void.
pub open spec fn drawn_tile(rows: Seq<Seq<char>>, symbols: Seq<(char, SymbolMeaning)>, x: int, y: int) -> Option<
    Tile,
> {
    if x < rows[y].len() {
        match meaning_of(symbols, rows[y][x]) {
            Some(m) => tile_of(m),
            None => None,
        }
    } else {
        None
    }
}

/// `c` is a character that a symbol of `row` places, at its column.
pub open spec fn places_character(c: (i32, i32, Seq<char>), symbols: Seq<(char, SymbolMeaning)>, row: Seq<char>) -> bool {
    &&& 0 <= c.0 < row.len()
    &&& meaning_of(symbols, row[c.0 as int]) matches Some(SymbolMeaning::Character { sheet, tile: _ })
    &&& c.2 == sheet@
}

/// `e` is an edge that a symbol of `row` marks, at its column.
pub open spec fn marks_edge(e: (i32, i32), symbols: Seq<(char, SymbolMeaning)>, row: Seq<char>) -> bool {
    &&& 0 <= e.0 < row.len()
    &&& meaning_of(symbols, row[e.0 as int]) == Some(SymbolMeaning::Edge)
}

/// What reading one row adds to a layout.
proof fn lemma_read_row_layout(l: Layout, row: Seq<char>, y: int, symbols: Seq<(char, SymbolMeaning)>, l2: Layout)
    requires
        read_row(l, row, y, symbols) == Ok::<Layout, char>(l2),
        0 <= y <= i32::MAX,
        row.len() <= i32::MAX,
    ensures
        l2.0.len() == l.0.len() + row.len(),
        forall|j: int| 0 <= j < l.0.len() ==> #[trigger] l2.0[j] == l.0[j],
        forall|x: int|
            0 <= x < row.len() ==> meaning_of(symbols, #[trigger] row[x]) is Some && l2.0[l.0.len() + x] == tile_of(
                meaning_of(symbols, row[x])->0,
            ),
        l.1.len() <= l2.1.len(),
        forall|i: int| 0 <= i < l.1.len() ==> #[trigger] l2.1[i] == l.1[i],
        forall|i: int|
            #![trigger l2.1[i]]
            l.1.len() <= i < l2.1.len() ==> l2.1[i].1 == y && places_character(l2.1[i], symbols, row),
        l.2.len() <= l2.2.len(),
        forall|i: int| 0 <= i < l.2.len() ==> #[trigger] l2.2[i] == l.2[i],
        forall|i: int| #![trigger l2.2[i]] l.2.len() <= i < l2.2.len() ==> l2.2[i].1 == y && marks_edge(l2.2[i], symbols, row),
    decreases row.len(),
{
    if row.len() > 0 {
        let front = row.drop_last();
        let last = row.len() - 1;
        assert(row.last() == row[last]);
        let l1 = read_row(l, front, y, symbols)->Ok_0;
        let m = meaning_of(symbols, row.last())->0;
        assert(read_row(l, front, y, symbols) == Ok::<Layout, char>(l1));
        assert(l2 == place(l1, m, last, y));
        lemma_read_row_layout(l, front, y, symbols, l1);
        assert forall|x: int| 0 <= x < row.len() implies meaning_of(symbols, #[trigger] row[x]) is Some
            && l2.0[l.0.len() + x] == tile_of(meaning_of(symbols, row[x])->0) by {
            if x < last {
                assert(front[x] == row[x]);
                assert(l2.0[l.0.len() + x] == l1.0[l.0.len() + x]);
            }
        }
        assert forall|i: int| #![trigger l2.1[i]] l.1.len() <= i < l2.1.len() implies l2.1[i].1 == y && places_character(
            l2.1[i],
            symbols,
            row,
        ) by {
            if i < l1.1.len() {
                assert(l2.1[i] == l1.1[i]);
                assert(l1.1[i].1 == y && places_character(l1.1[i], symbols, front));
                assert(front[l1.1[i].0 as int] == row[l1.1[i].0 as int]);
            }
        }
        assert forall|i: int| #![trigger l2.2[i]] l.2.len() <= i < l2.2.len() implies l2.2[i].1 == y && marks_edge(
            l2.2[i],
            symbols,
            row,
        ) by {
            if i < l1.2.len() {
                assert(l2.2[i] == l1.2[i]);
                assert(l1.2[i].1 == y && marks_edge(l1.2[i], symbols, front));
                assert(front[l1.2[i].0 as int] == row[l1.2[i].0 as int]);
            }
        }
    } else {
        assert(l2 == l);
    }
}

/// What reading the rows of a drawing gives, when each takes one byte per character and
/// none is wider than `width`.
proof fn lemma_read_rows_layout(rows: Seq<Seq<char>>, width: nat, symbols: Seq<(char, SymbolMeaning)>, l: Layout)
    requires
        forall|r: int| 0 <= r < rows.len() ==> single_byte(#[trigger] rows[r]) && byte_len(rows[r]) <= width,
        read_rows(rows, width, symbols) == Ok::<Layout, char>(l),
        rows.len() <= i32::MAX,
        width <= i32::MAX,
    ensures
        l.0.len() == width * rows.len(),
        forall|x: int, y: int|
            0 <= y < rows.len() && 0 <= x < width ==> l.0[y * width + x] == #[trigger] drawn_tile(rows, symbols, x, y),
        forall|i: int|
            #![trigger l.1[i]]
            0 <= i < l.1.len() ==> 0 <= l.1[i].1 < rows.len() && places_character(l.1[i], symbols, rows[l.1[i].1 as int]),
        forall|i: int|
            #![trigger l.2[i]]
            0 <= i < l.2.len() ==> 0 <= l.2[i].1 < rows.len() && marks_edge(l.2[i], symbols, rows[l.2[i].1 as int]),
    decreases rows.len(),
{
    if rows.len() > 0 {
        let n = rows.len() - 1;
        let rest = rows.drop_last();
        let row = rows.last();
        assert(row == rows[n]);
        assert forall|r: int| 0 <= r < rest.len() implies single_byte(#[trigger] rest[r]) && byte_len(rest[r])
            <= width by {
            assert(rest[r] == rows[r]);
        }
        let lp = read_rows(rest, width, symbols)->Ok_0;
        assert(read_rows(rest, width, symbols) == Ok::<Layout, char>(lp));
        let l2 = read_row(lp, row, n, symbols)->Ok_0;
        assert(read_row(lp, row, n, symbols) == Ok::<Layout, char>(l2));
        let pad = Seq::new((width - byte_len(row)) as nat, |i: int| None::<Tile>);
        assert(l == (l2.0 + pad, l2.1, l2.2));
        lemma_read_rows_layout(rest, width, symbols, lp);
        assert(single_byte(rows[n]));
        lemma_single_byte_len(row);
        lemma_read_row_layout(lp, row, n, symbols, l2);
        assert(width * rows.len() == width * n + width) by (nonlinear_arith)
            requires
                rows.len() == n + 1,
        ;
        assert(l.0.len() == width * rows.len());
        assert forall|x: int, y: int| 0 <= y < rows.len() && 0 <= x < width implies l.0[y * width + x]
            == #[trigger] drawn_tile(rows, symbols, x, y) by {
            if y < n {
                assert(y * width + x < n * width) by (nonlinear_arith)
                    requires
                        0 <= y < n,
                        0 <= x < width,
                ;
                assert(0 <= y * width + x) by (nonlinear_arith)
                    requires
                        0 <= y,
                        0 <= x,
                ;
                assert(rest[y] == rows[y]);
                assert(drawn_tile(rest, symbols, x, y) == drawn_tile(rows, symbols, x, y));
                assert(l2.0[y * width + x] == lp.0[y * width + x]);
            } else {
                assert(y * width + x == lp.0.len() + x) by (nonlinear_arith)
                    requires
                        y == n,
                        lp.0.len() == width * n,
                ;
                if x < row.len() {
                    assert(meaning_of(symbols, row[x]) is Some);
                    assert(l2.0[lp.0.len() + x] == tile_of(meaning_of(symbols, row[x])->0));
                }
            }
        }
        assert forall|i: int| #![trigger l.1[i]] 0 <= i < l.1.len() implies 0 <= l.1[i].1 < rows.len() && places_character(
            l.1[i],
            symbols,
            rows[l.1[i].1 as int],
        ) by {
            if i < lp.1.len() {
                assert(l2.1[i] == lp.1[i]);
                assert(rest[lp.1[i].1 as int] == rows[lp.1[i].1 as int]);
            }
        }
        assert forall|i: int| #![trigger l.2[i]] 0 <= i < l.2.len() implies 0 <= l.2[i].1 < rows.len() && marks_edge(
            l.2[i],
            symbols,
            rows[l.2[i].1 as int],
        ) by {
            if i < lp.2.len() {
                assert(l2.2[i] == lp.2[i]);
                assert(rest[lp.2[i].1 as int] == rows[lp.2[i].1 as int]);
            }
        }
    } else {
        assert(l == (Seq::<Option<Tile>>::empty(), Seq::<(i32, i32, Seq<char>)>::empty(), Seq::<(i32, i32)>::empty()));
    }
}

/// A drawing whose lines take one byte per character reads row by row, from its first line
/// that is not empty: it has `width` tiles for each line, the tile of column `x` of line `y`
/// standing at `y * width + x` and lines shorter than `width` padded with void; each character
/// and each edge stands at the column and line of a symbol of the drawing that places it, and
/// an edge leaves void there. (Positions are `i32`, so the drawing is taken to have fewer
/// than `2^31` lines, none longer than that.)
pub proof fn lemma_parsed_layout(source: Seq<char>, symbols: Seq<(char, SymbolMeaning)>)
    requires
        forall|r: int| 0 <= r < skip_empty(lines(source)).len() ==> single_byte(
            #[trigger] skip_empty(lines(source))[r],
        ) && skip_empty(lines(source))[r].len() <= i32::MAX,
        skip_empty(lines(source)).len() <= i32::MAX,
    ensures
        parse_spec(source, symbols) matches Ok((l, width)) ==> {
            let rows = skip_empty(lines(source));
            &&& l.0.len() == width * rows.len()
            &&& forall|x: int, y: int|
                0 <= y < rows.len() && 0 <= x < width ==> l.0[y * width + x] == #[trigger] drawn_tile(
                    rows,
                    symbols,
                    x,
                    y,
                )
            &&& forall|i: int|
                #![trigger l.1[i]]
                0 <= i < l.1.len() ==> 0 <= l.1[i].1 < rows.len() && places_character(
                    l.1[i],
                    symbols,
                    rows[l.1[i].1 as int],
                )
            &&& forall|i: int|
                #![trigger l.2[i]]
                0 <= i < l.2.len() ==> 0 <= l.2[i].1 < rows.len() && marks_edge(
                    l.2[i],
                    symbols,
                    rows[l.2[i].1 as int],
                ) && drawn_tile(rows, symbols, l.2[i].0 as int, l.2[i].1 as int) is None
        },
{
    let rows = skip_empty(lines(source));
    lemma_max_width(rows);
    if let Ok((l, width)) = parse_spec(source, symbols) {
        assert(read_rows(rows, width, symbols) == Ok::<Layout, char>(l));
        assert forall|r: int| 0 <= r < rows.len() implies byte_len(#[trigger] rows[r]) <= i32::MAX by {
            assert(single_byte(rows[r]));
            lemma_single_byte_len(rows[r]);
        }
        lemma_max_width_bound(rows, i32::MAX as nat);
        lemma_read_rows_layout(rows, width, symbols, l);
    }
}

/// The widest of some lines is no wider than a bound that each of them keeps to.
proof fn lemma_max_width_bound(ls: Seq<Seq<char>>, bound: nat)
    requires
        forall|r: int| 0 <= r < ls.len() ==> byte_len(#[trigger] ls[r]) <= bound,
    ensures
        max_width(ls) <= bound,
    decreases ls.len(),
{
    if ls.len() > 0 {
        let front = ls.drop_last();
        assert forall|r: int| 0 <= r < front.len() implies byte_len(#[trigger] front[r]) <= bound by {
            assert(front[r] == ls[r]);
        }
        lemma_max_width_bound(front, bound);
        assert(byte_len(ls[ls.len() - 1]) <= bound);
    }
}

pub(crate) proof fn lemma_byte_len_concat(a: Seq<char>, b: Seq<char>)
    ensures
        byte_len(a + b) == byte_len(a) + byte_len(b),
    decreases b.len(),
{
    if b.len() > 0 {
        assert((a + b).drop_last() == a + b.drop_last());
        lemma_byte_len_concat(a, b.drop_last());
    } else {
        assert(a + b == a);
    }
}

pub(crate) proof fn lemma_byte_len_prefix(s: Seq<char>, k: int)
    requires
        0 <= k <= s.len(),
    ensures
        byte_len(s.take(k)) <= byte_len(s),
{
    lemma_byte_len_concat(s.take(k), s.skip(k));
    assert(s.take(k) + s.skip(k) == s);
}

proof fn lemma_lines_byte_len(s: Seq<char>)
    ensures
        forall|i: int| 0 <= i < lines(s).len() ==> byte_len(#[trigger] lines(s)[i]) <= byte_len(s),
    decreases s.len(),
{
    if s.len() > 0 {
        lemma_first_newline(s);
        if let Some(k) = first_newline(s) {
            lemma_lines_at_newline(s, k);
            lemma_lines_byte_len(s.skip(k + 1));
            lemma_byte_len_concat(s.take(k), s.skip(k));
            assert(s.take(k) + s.skip(k) == s);
            lemma_byte_len_concat(seq![s[k]], s.skip(k + 1));
            assert(seq![s[k]] + s.skip(k + 1) == s.skip(k));
            let line = s.take(k);
            if line.len() > 0 && line.last() == '\r' {
                lemma_byte_len_prefix(line, line.len() - 1);
                assert(line.take(line.len() - 1) == line.drop_last());
            }
            assert forall|i: int| 0 <= i < lines(s).len() implies byte_len(#[trigger] lines(s)[i]) <= byte_len(s) by {
                if i > 0 {
                    assert(lines(s)[i] == lines(s.skip(k + 1))[i - 1]);
                }
            }
        } else {
            lemma_lines_without_newline(s);
        }
    } else {
        lemma_lines_without_newline(s);
    }
}

proof fn lemma_read_row_error(l: Layout, row: Seq<char>, k: int, y: int, symbols: Seq<(char, SymbolMeaning)>)
    requires
        0 < k <= row.len(),
        read_row(l, row.take(k - 1), y, symbols) is Ok,
        meaning_of(symbols, row[k - 1]) is None,
    ensures
        read_row(l, row, y, symbols) == Err::<Layout, char>(row[k - 1]),
    decreases row.len(),
{
    if k < row.len() {
        assert(row.drop_last().take(k - 1) == row.take(k - 1));
        lemma_read_row_error(l, row.drop_last(), k, y, symbols);
    } else {
        assert(row.drop_last() == row.take(k - 1));
    }
}

proof fn lemma_read_rows_error(rows: Seq<Seq<char>>, k: int, width: nat, symbols: Seq<(char, SymbolMeaning)>)
    requires
        0 < k <= rows.len(),
        read_rows(rows.take(k), width, symbols) is Err,
    ensures
        read_rows(rows, width, symbols) == read_rows(rows.take(k), width, symbols),
    decreases rows.len(),
{
    if k < rows.len() {
        assert(rows.drop_last().take(k) == rows.take(k));
        lemma_read_rows_error(rows.drop_last(), k, width, symbols);
    } else {
        assert(rows.take(k) == rows);
    }
}

} // verus!
