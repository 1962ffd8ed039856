use std::collections::HashMap;
use vstd::prelude::*;

verus! {

/// Number of cells in the reverse grid: 94 rows of 94 columns.
pub const GRID_CELLS: usize = 8836;

/// Number of cells filled from raw data; the final two rows (2 x 94 cells)
/// are padded with the fallback character instead.
pub const GRID_DATA_CELLS: usize = 8648;

/// Marks a cell of the reverse grid that decodes to nothing.
pub const UNMAPPED: char = '\u{fffd}';

/// The designated fallback character, the interpunct.
pub const FALLBACK: char = '\u{30fb}';

/// Lead byte of the fixed replacement sequence (which encodes the fallback
/// character).
pub const REPLACEMENT_LEAD: u8 = 0x81;

/// Trail byte of the fixed replacement sequence.
pub const REPLACEMENT_TRAIL: u8 = 0x45;

/// ASCII characters are encoded as a single byte equal to their scalar value.
pub open spec fn ascii_char(c: char) -> bool {
    c as u32 <= 0x7F
}

/// The half-width katakana block, U+FF61 ..= U+FF9F, is encoded as a single
/// byte in the range 0xA1 ..= 0xDF.
pub open spec fn kana_char(c: char) -> bool {
    0xFF61 <= c as u32 && c as u32 <= 0xFF9F
}

/// Valid lead bytes of a double-byte sequence.
pub open spec fn valid_lead(b: u8) -> bool {
    (0x81 <= b && b <= 0x9F) || (0xE0 <= b && b <= 0xEF)
}

/// Normalized row offset of a lead byte: 0 ..= 46.
pub open spec fn lead_offset(b: u8) -> int
    recommends
        valid_lead(b),
{
    if b <= 0x9F {
        b - 0x81
    } else {
        b - 0xE0 + 0x1F
    }
}

/// Valid trail bytes of a double-byte sequence.
pub open spec fn valid_trail(b: u8) -> bool {
    (0x40 <= b && b <= 0x7E) || (0x80 <= b && b <= 0xFC)
}

/// Normalized column offset of a trail byte: 0 ..= 187, spanning two
/// 94-wide windows of the grid.
pub open spec fn trail_offset(b: u8) -> int
    recommends
        valid_trail(b),
{
    if b <= 0x7E {
        b - 0x40
    } else {
        b - 0x80 + 0x3F
    }
}

/// Flat index of the grid cell addressed by a lead/trail pair, in row-major
/// order over the 94 x 94 grid.
pub open spec fn cell_index(lead: u8, trail: u8) -> int
    recommends
        valid_lead(lead),
        valid_trail(trail),
{
    lead_offset(lead) * 188 + trail_offset(trail)
}

pub proof fn lemma_cell_index_range(lead: u8, trail: u8)
    requires
        valid_lead(lead),
        valid_trail(trail),
    ensures
        0 <= cell_index(lead, trail) < GRID_CELLS,
{
}

/// The forward table obtained from an ordered association list when the
/// first occurrence of each character wins and later duplicates are ignored.
pub open spec fn first_wins(entries: Seq<(char, u8, u8)>) -> Map<u32, (u8, u8)>
    decreases entries.len(),
{
    if entries.len() == 0 {
        Map::empty()
    } else {
        let prefix = first_wins(entries.drop_last());
        let e = entries.last();
        if prefix.contains_key(e.0 as u32) {
            prefix
        } else {
            prefix.insert(e.0 as u32, (e.1, e.2))
        }
    }
}

/// The reverse grid obtained by padding the raw cell list with two rows of
/// the fallback character.
pub open spec fn padded(grid: Seq<char>) -> Seq<char> {
    grid + Seq::new(188, |i: int| FALLBACK)
}

/// A forward entry must address a valid double-byte sequence whose grid cell
/// holds exactly the character it encodes.
pub open spec fn forward_entry_ok(m: Map<u32, (u8, u8)>, r: Seq<char>, k: u32) -> bool
    recommends
        m.contains_key(k),
{
    &&& k != 0xFFFD
    &&& valid_lead(m[k].0)
    &&& valid_trail(m[k].1)
    &&& r[cell_index(m[k].0, m[k].1)] as u32 == k
}

/// A mapped grid cell must hold a character of the double-byte plane (not
/// ASCII, not half-width kana) that the forward table can encode again.
pub open spec fn cell_ok(m: Map<u32, (u8, u8)>, c: char) -> bool {
    c == UNMAPPED || (!ascii_char(c) && !kana_char(c) && m.contains_key(c as u32))
}

/// Mutual consistency of a forward table and a reverse grid: the shape of
/// the grid, its padded tail, both directions of the round trip, and the
/// fixed replacement sequence decoding to an encodable character.
pub open spec fn consistent(m: Map<u32, (u8, u8)>, r: Seq<char>) -> bool {
    &&& r.len() == GRID_CELLS
    &&& forall|i: int| GRID_DATA_CELLS <= i < GRID_CELLS ==> r[i] == FALLBACK
    &&& forall|i: int| 0 <= i < GRID_CELLS ==> cell_ok(m, #[trigger] r[i])
    &&& forall|k: u32| #[trigger] m.contains_key(k) ==> forward_entry_ok(m, r, k)
    &&& r[cell_index(REPLACEMENT_LEAD, REPLACEMENT_TRAIL)] != UNMAPPED
    &&& m.contains_key(r[cell_index(REPLACEMENT_LEAD, REPLACEMENT_TRAIL)] as u32)
    &&& m[r[cell_index(REPLACEMENT_LEAD, REPLACEMENT_TRAIL)] as u32] == (
        REPLACEMENT_LEAD,
        REPLACEMENT_TRAIL,
    )
}

/// A pair of tables can be built exactly when the forward table selected by
/// the first-occurrence policy and the padded grid are mutually consistent.
pub open spec fn buildable(entries: Seq<(char, u8, u8)>, grid: Seq<char>) -> bool {
    consistent(first_wins(entries), padded(grid))
}

/// Every binding chosen from a prefix of the association list survives,
/// unchanged, in the table built from the whole list: later entries never
/// override an earlier choice.
pub proof fn lemma_first_wins_prefix(entries: Seq<(char, u8, u8)>, i: int)
    requires
        0 <= i <= entries.len(),
    ensures
        forall|k: u32|
            first_wins(entries.take(i)).contains_key(k) ==> #[trigger] first_wins(
                entries,
            ).contains_key(k) && first_wins(entries)[k] == first_wins(entries.take(i))[k],
    decreases entries.len() - i,
{
    if i == entries.len() {
        assert(entries.take(i) =~= entries);
    } else {
        assert(entries.take(i + 1).drop_last() =~= entries.take(i));
        assert(entries.take(i + 1).last() == entries[i]);
        lemma_first_wins_prefix(entries, i + 1);
    }
}

/// The two lookup tables for the double-byte plane, built once and read-only
/// thereafter.
pub struct Tables {
    forward: HashMap<u32, (u8, u8)>,
    reverse: Vec<char>,
}

impl Tables {
    /// Builds and validates the two tables from an ordered association list
    /// (first occurrence of a character wins) and the raw cell list of the
    /// reverse grid, which is padded with two rows of the fallback
    /// character.  Returns `None` exactly when the resulting tables would
    /// not be mutually consistent.
    pub fn new(entries: &Vec<(char, u8, u8)>, grid: &Vec<char>) -> (r: Option<Tables>)
        ensures
            match r {
                Some(t) => buildable(entries@, grid@) && t.wf() && t.fwd() == first_wins(entries@)
                    && t.rev() == padded(grid@),
                None => !buildable(entries@, grid@),
            },
    {
        if grid.len() != GRID_DATA_CELLS {
            assert(padded(grid@).len() != GRID_CELLS);
            return None;
        }
        let mut reverse: Vec<char> = Vec::new();
        let mut gi: usize = 0;
        while gi < grid.len()
            invariant
                gi <= grid.len(),
                reverse@.len() == gi,
                forall|x: int| 0 <= x < gi ==> reverse@[x] == grid@[x],
            decreases grid.len() - gi,
        {
            reverse.push(grid[gi]);
            gi = gi + 1;
        }
        let mut pad: usize = 0;
        while pad < 188
            invariant
                pad <= 188,
                reverse@.len() == grid@.len() + pad,
                forall|x: int| 0 <= x < grid@.len() ==> reverse@[x] == grid@[x],
                forall|x: int| grid@.len() <= x < reverse@.len() ==> reverse@[x] == FALLBACK,
            decreases 188 - pad,
        {
            reverse.push(FALLBACK);
            pad = pad + 1;
        }
        assert(reverse@ =~= padded(grid@));

        let ghost m_full = first_wins(entries@);
        let mut forward: HashMap<u32, (u8, u8)> = HashMap::new();
        let mut i: usize = 0;
        assert(entries@.take(0) =~= Seq::<(char, u8, u8)>::empty());
        while i < entries.len()
            invariant
                i <= entries.len(),
                m_full == first_wins(entries@),
                reverse@ == padded(grid@),
                reverse@.len() == GRID_CELLS,
                forward@ == first_wins(entries@.take(i as int)),
                forall|k: u32|
                    #[trigger] forward@.contains_key(k) ==> forward_entry_ok(
                        forward@,
                        reverse@,
                        k,
                    ),
            decreases entries.len() - i,
        {
            let e = entries[i];
            let k = e.0 as u32;
            proof {
                assert(entries@.take(i as int + 1).drop_last() =~= entries@.take(i as int));
                assert(entries@.take(i as int + 1).last() == entries@[i as int]);
            }
            if !forward.contains_key(&k) {
                let lead = e.1;
                let trail = e.2;
                proof {
                    lemma_first_wins_prefix(entries@, i as int + 1);
                    let fw1 = first_wins(entries@.take(i as int + 1));
                    assert(fw1 == forward@.insert(k, (lead, trail)));
                    assert(fw1.contains_key(k));
                    assert(fw1[k] == (lead, trail));
                    assert(m_full.contains_key(k));
                    assert(m_full[k] == (lead, trail));
                }
                let lead_ok = (0x81 <= lead && lead <= 0x9F) || (0xE0 <= lead && lead <= 0xEF);
                let trail_ok = (0x40 <= trail && trail <= 0x7E) || (0x80 <= trail && trail
                    <= 0xFC);
                if !lead_ok || !trail_ok {
                    assert(!forward_entry_ok(m_full, padded(grid@), k));
                    return None;
                }
                if k == 0xFFFD {
                    assert(!forward_entry_ok(m_full, padded(grid@), k));
                    return None;
                }
                proof {
                    lemma_cell_index_range(lead, trail);
                }
                let idx = cell_index_exec(lead, trail);
                let cell_char = reverse[idx];
                if cell_char != e.0 {
                    proof {
                        if padded(grid@)[cell_index(lead, trail)] as u32 == k {
                            vstd::utf8::char_u32_cast(e.0, k);
                            vstd::utf8::char_u32_cast(cell_char, k);
                        }
                        assert(!forward_entry_ok(m_full, padded(grid@), k));
                    }
                    return None;
                }
                forward.insert(k, (lead, trail));
            }
            i = i + 1;
        }
        assert(entries@.take(entries@.len() as int) =~= entries@);
        assert(forward@ == m_full);

        let mut j: usize = 0;
        while j < GRID_CELLS
            invariant
                j <= GRID_CELLS,
                forward@ == m_full,
                m_full == first_wins(entries@),
                reverse@ == padded(grid@),
                reverse@.len() == GRID_CELLS,
                forall|x: int| 0 <= x < j ==> cell_ok(forward@, #[trigger] reverse@[x]),
            decreases GRID_CELLS - j,
        {
            let c = reverse[j];
            if c != UNMAPPED {
                let u = c as u32;
                if u <= 0x7F {
                    assert(!cell_ok(m_full, padded(grid@)[j as int]));
                    return None;
                }
                if 0xFF61 <= u && u <= 0xFF9F {
                    assert(!cell_ok(m_full, padded(grid@)[j as int]));
                    return None;
                }
                if !forward.contains_key(&u) {
                    assert(!cell_ok(m_full, padded(grid@)[j as int]));
                    return None;
                }
            }
            j = j + 1;
        }

        proof {
            lemma_cell_index_range(REPLACEMENT_LEAD, REPLACEMENT_TRAIL);
        }
        let ridx = cell_index_exec(REPLACEMENT_LEAD, REPLACEMENT_TRAIL);
        let rc = reverse[ridx];
        if rc == UNMAPPED {
            return None;
        }
        match forward.get(&(rc as u32)) {
            Some(p) => {
                if !(p.0 == REPLACEMENT_LEAD && p.1 == REPLACEMENT_TRAIL) {
                    return None;
                }
            },
            None => {
                return None;
            },
        }
        let t = Tables { forward, reverse };
        assert(t.wf());
        Some(t)
    }

    /// The forward table: scalar value to double-byte sequence.
    pub closed spec fn fwd(self) -> Map<u32, (u8, u8)> {
        self.forward@
    }

    /// The reverse grid: flat, row-major, one character or `UNMAPPED` per
    /// cell.
    pub closed spec fn rev(self) -> Seq<char> {
        self.reverse@
    }

    /// Well-formedness: the two tables are mutually consistent.
    pub open spec fn wf(self) -> bool {
        consistent(self.fwd(), self.rev())
    }

    /// Looks a character up in the forward table.
    pub fn lookup_forward(&self, c: char) -> (r: Option<(u8, u8)>)
        ensures
            match r {
                Some(p) => self.fwd().contains_key(c as u32) && p == self.fwd()[c as u32],
                None => !self.fwd().contains_key(c as u32),
            },
    {
        match self.forward.get(&(c as u32)) {
            Some(p) => Some(*p),
            None => None,
        }
    }

    /// Reads the grid cell addressed by a valid lead/trail pair.
    pub fn cell(&self, lead: u8, trail: u8) -> (c: char)
        requires
            self.wf(),
            valid_lead(lead),
            valid_trail(trail),
        ensures
            c == self.rev()[cell_index(lead, trail)],
    {
        proof {
            lemma_cell_index_range(lead, trail);
        }
        let i = cell_index_exec(lead, trail);
        self.reverse[i]
    }
}

/// Computes the flat grid index of a lead/trail pair.
pub(crate) fn cell_index_exec(lead: u8, trail: u8) -> (i: usize)
    requires
        valid_lead(lead),
        valid_trail(trail),
    ensures
        i == cell_index(lead, trail),
{
    let lo: usize = if lead <= 0x9F {
        (lead - 0x81) as usize
    } else {
        (lead - 0xE0) as usize + 0x1F
    };
    let to: usize = if trail <= 0x7E {
        (trail - 0x40) as usize
    } else {
        (trail - 0x80) as usize + 0x3F
    };
    lo * 188 + to
}

} // verus!
