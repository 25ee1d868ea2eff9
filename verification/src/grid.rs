use vstd::prelude::*;
use vstd::string::StringExecFns;
use crate::position::Position;

verus! {

/// The decimal digit `d` (0 to 9) as a character.
pub open spec fn digit_char(d: int) -> char {
    if d == 0 {
        '0'
    } else if d == 1 {
        '1'
    } else if d == 2 {
        '2'
    } else if d == 3 {
        '3'
    } else if d == 4 {
        '4'
    } else if d == 5 {
        '5'
    } else if d == 6 {
        '6'
    } else if d == 7 {
        '7'
    } else if d == 8 {
        '8'
    } else {
        '9'
    }
}

/// The decimal rendering of `n`, most significant digit first.
pub open spec fn spec_digits(n: nat) -> Seq<char>
    decreases n,
{
    if n < 10 {
        seq![digit_char(n as int)]
    } else {
        spec_digits(n / 10).push(digit_char((n % 10) as int))
    }
}

/// The decimal rendering of `v`, with a leading minus sign when negative.
pub open spec fn spec_int_chars(v: int) -> Seq<char> {
    if v < 0 {
        seq!['-'] + spec_digits((-v) as nat)
    } else {
        spec_digits(v as nat)
    }
}

/// The occupancy key under which the cell `(x, y)` is looked up: the decimal
/// renderings of `x` and `y` joined by a minus sign.
pub open spec fn spec_cell_key(x: int, y: int) -> Seq<char> {
    spec_int_chars(x) + seq!['-'] + spec_int_chars(y)
}

/// Appends the digit `d` to `s`.
fn push_digit(s: &mut String, d: u32)
    requires
        d < 10,
    ensures
        final(s)@ == old(s)@.push(digit_char(d as int)),
{
    proof {
        reveal_strlit("0");
        reveal_strlit("1");
        reveal_strlit("2");
        reveal_strlit("3");
        reveal_strlit("4");
        reveal_strlit("5");
        reveal_strlit("6");
        reveal_strlit("7");
        reveal_strlit("8");
        reveal_strlit("9");
    }
    let ghost prefix = s@;
    if d == 0 {
        s.append("0");
    } else if d == 1 {
        s.append("1");
    } else if d == 2 {
        s.append("2");
    } else if d == 3 {
        s.append("3");
    } else if d == 4 {
        s.append("4");
    } else if d == 5 {
        s.append("5");
    } else if d == 6 {
        s.append("6");
    } else if d == 7 {
        s.append("7");
    } else if d == 8 {
        s.append("8");
    } else {
        s.append("9");
    }
    proof {
        assert(s@ =~= prefix.push(digit_char(d as int)));
    }
}

/// Appends the decimal rendering of `n` to `s`.
fn push_u32_decimal(s: &mut String, n: u32)
    ensures
        final(s)@ == old(s)@ + spec_digits(n as nat),
    decreases n,
{
    let ghost prefix = s@;
    if n < 10 {
        push_digit(s, n);
        proof {
            assert(s@ =~= prefix + spec_digits(n as nat));
        }
    } else {
        push_u32_decimal(s, n / 10);
        push_digit(s, n % 10);
        proof {
            assert(s@ =~= prefix + spec_digits(n as nat));
        }
    }
}

/// Appends the decimal rendering of `v` to `s`, with a leading minus sign
/// when `v` is negative.
fn push_i32_decimal(s: &mut String, v: i32)
    ensures
        final(s)@ == old(s)@ + spec_int_chars(v as int),
{
    let ghost prefix = s@;
    if v < 0 {
        proof {
            reveal_strlit("-");
        }
        s.append("-");
        let m = (-(v as i64)) as u32;
        assert(m as nat == (-(v as int)) as nat);
        push_u32_decimal(s, m);
        proof {
            assert(s@ =~= prefix + spec_int_chars(v as int));
        }
    } else {
        push_u32_decimal(s, v as u32);
    }
}

/// The occupancy key of the cell `(x, y)` as a string.
fn cell_key(x: i32, y: i32) -> (r: String)
    ensures
        r@ == spec_cell_key(x as int, y as int),
{
    let mut s = String::new();
    push_i32_decimal(&mut s, x);
    proof {
        reveal_strlit("-");
    }
    s.append("-");
    push_i32_decimal(&mut s, y);
    proof {
        assert(s@ =~= spec_cell_key(x as int, y as int));
    }
    s
}

/// The set of occupancy keys of the top-level object of the text `s`, read
/// as a JSON mapping from string keys to arbitrary-valued lists; `None` when
/// the text is not such a mapping.
pub uninterp spec fn grid_json_keys(s: Seq<char>) -> Option<Set<Seq<char>>>;

/// Relies on serde_json::from_str: whether a text parses as a JSON object of
/// string keys and list values, and which keys that object holds, depend on
/// the text alone. The returned vector holds exactly the keys of the parsed
/// object (in an arbitrary order), or `None` when parsing fails.
#[verifier::external_body]
fn parse_grid_keys(json: &str) -> (r: Option<Vec<String>>)
    ensures
        r is Some <==> grid_json_keys(json@) is Some,
        (r matches Some(ks) ==> grid_json_keys(json@) == Some(
            Set::new(|k: Seq<char>| exists|i: int| 0 <= i < ks@.len() && (#[trigger] ks@[i])@ == k),
        )),
{
    match serde_json::from_str::<std::collections::HashMap<String, Vec<serde_json::Value>>>(json) {
        Ok(m) => Some(m.into_keys().collect()),
        Err(_) => None,
    }
}

/// A fixed snapshot of an occupancy grid: its dimensions and the set of keys
/// of the occupied cells. Read-only for the duration of a search.
pub struct Grid {
    pub size_x: i32,
    pub size_y: i32,
    /// The occupancy keys of the occupied cells.
    pub cells: Vec<String>,
}

impl Grid {
    /// The set of occupancy keys held by this grid.
    pub closed spec fn key_set(self) -> Set<Seq<char>> {
        Set::new(|k: Seq<char>| exists|i: int| 0 <= i < self.cells@.len() && (#[trigger] self.cells@[i])@ == k)
    }

    /// The cell `(x, y)` is occupied.
    pub open spec fn spec_filled(self, x: int, y: int) -> bool {
        self.key_set().contains(spec_cell_key(x, y))
    }

    /// The cell `(x, y)` is outside the grid or occupied.
    pub open spec fn spec_invalid(self, x: int, y: int) -> bool {
        x < 0 || y < 0 || x >= self.size_x || y >= self.size_y || self.spec_filled(x, y)
    }

    /// The occupancy key of the cell of `position`.
    pub fn key(position: &Position) -> (r: String)
        ensures
            r@ == spec_cell_key(position.x as int, position.y as int),
    {
        cell_key(position.x, position.y)
    }

    /// Builds a grid of the given dimensions from a serialized snapshot: a
    /// JSON mapping whose keys name the occupied cells (only key presence
    /// matters). A malformed snapshot fails open to an empty occupancy set,
    /// so the whole grid reads as free.
    pub fn new(size_x: i32, size_y: i32, json: String) -> (g: Grid)
        ensures
            g.size_x == size_x,
            g.size_y == size_y,
            (match grid_json_keys(json@) {
                Some(ks) => g.key_set() == ks,
                None => g.key_set() == Set::<Seq<char>>::empty(),
            }),
    {
        let cells = match parse_grid_keys(json.as_str()) {
            Some(ks) => ks,
            None => Vec::new(),
        };
        let g = Grid { size_x, size_y, cells };
        proof {
            match grid_json_keys(json@) {
                Some(ks) => {
                    assert(g.key_set() =~= ks);
                },
                None => {
                    assert(g.key_set() =~= Set::<Seq<char>>::empty());
                },
            }
        }
        g
    }

    /// Whether the cell `(x, y)` is occupied in this snapshot.
    pub fn filled(&self, x: i32, y: i32) -> (r: bool)
        ensures
            r == self.spec_filled(x as int, y as int),
    {
        let key = cell_key(x, y);
        let mut i: usize = 0;
        while i < self.cells.len()
            invariant
                0 <= i <= self.cells@.len(),
                key@ == spec_cell_key(x as int, y as int),
                forall|j: int| 0 <= j < i ==> (#[trigger] self.cells@[j])@ != key@,
            decreases self.cells@.len() - i,
        {
            if self.cells[i] == key {
                return true;
            }
            i += 1;
        }
        false
    }
}

/// Whether `position` may not be entered: it lies outside the grid or its
/// cell is occupied.
pub fn is_invalid(position: &Position, grid: &Grid) -> (r: bool)
    ensures
        r == grid.spec_invalid(position.x as int, position.y as int),
{
    position.x < 0 || position.y < 0 || position.x >= grid.size_x || position.y >= grid.size_y
        || grid.filled(position.x, position.y)
}

} // verus!
