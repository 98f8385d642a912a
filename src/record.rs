use vstd::prelude::*;

verus! {

/// One game-sales observation.
///
/// `global_sales` is measured in thousands of units, so a value of `1500`
/// stands for 1.5 million units. Both numeric fields are absent when the
/// source value was missing or could not be read.
#[derive(Clone, Debug)]
pub struct Game {
    pub name: String,
    pub platform: String,
    pub year: Option<u32>,
    pub genre: String,
    pub publisher: String,
    pub global_sales: Option<i64>,
}

/// A grouping dimension for the category reports.
#[derive(Clone, Copy, Debug, PartialEq, Eq, Structural)]
pub enum Category {
    Genre,
    Platform,
    Publisher,
    Year,
}

/// Sales above this many thousands of units (one million) make a bestseller.
pub const BESTSELLER_THRESHOLD: i64 = 1000;

/// A record is a bestseller when its sales are present and exceed one million.
pub open spec fn bestseller(g: Game) -> bool {
    match g.global_sales {
        Some(s) => s > BESTSELLER_THRESHOLD,
        None => false,
    }
}

pub open spec fn digit_char(d: nat) -> char {
    seq!['0', '1', '2', '3', '4', '5', '6', '7', '8', '9'][d as int]
}

/// The decimal digits of `n`, most significant first, without leading zeros.
pub open spec fn decimal(n: nat) -> Seq<char>
    decreases n,
{
    if n < 10 {
        seq![digit_char(n)]
    } else {
        decimal(n / 10).push(digit_char(n % 10))
    }
}

/// The label that groups a record along a category; a missing year groups
/// under `Unknown`.
pub open spec fn key_spec(g: Game, c: Category) -> Seq<char> {
    match c {
        Category::Genre => g.genre@,
        Category::Platform => g.platform@,
        Category::Publisher => g.publisher@,
        Category::Year => match g.year {
            Some(y) => decimal(y as nat),
            None => "Unknown"@,
        },
    }
}

/// Relies on `u32::to_string` (through `Display`): the plain decimal digits.
#[verifier::external_body]
fn year_text(y: u32) -> (r: String)
    ensures
        r@ == decimal(y as nat),
{
    y.to_string()
}

impl Game {
    /// Whether this record is a bestseller.
    pub fn is_bestseller(&self) -> (r: bool)
        ensures
            r == bestseller(*self),
    {
        match self.global_sales {
            Some(s) => s > BESTSELLER_THRESHOLD,
            None => false,
        }
    }

    /// The label of this record along category `c`.
    pub fn key_of(&self, c: Category) -> (r: String)
        ensures
            r@ == key_spec(*self, c),
    {
        match c {
            Category::Genre => self.genre.clone(),
            Category::Platform => self.platform.clone(),
            Category::Publisher => self.publisher.clone(),
            Category::Year => match self.year {
                Some(y) => year_text(y),
                None => "Unknown".to_owned(),
            },
        }
    }
}

} // verus!
