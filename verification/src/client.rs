//! A search result as it comes from upstream.

use core::cmp::Ordering;

use vstd::prelude::*;

verus! {

/// The sign bit of a binary64 number.
pub const SIGN: u64 = 0x8000_0000_0000_0000;

/// The bits of positive infinity.  A greater magnitude is no number.
pub const INFINITY: u64 = 0x7ff0_0000_0000_0000;

/// An upstream score: a binary64 number of IEEE 754, by its bits.
#[derive(Clone, Copy, Debug, PartialEq, Eq, Structural)]
pub struct Score {
    /// The sign, the exponent and the fraction, from the highest bit down.
    pub bits: u64,
}

impl Score {
    /// The score of a result that has none.
    pub open spec fn zero_of() -> Score {
        Score { bits: 0 }
    }

    /// The bits below the sign.
    pub open spec fn magnitude(self) -> int {
        if self.bits < SIGN {
            self.bits as int
        } else {
            self.bits - SIGN
        }
    }

    /// Whether the bits stand for no number.
    pub open spec fn is_nan(self) -> bool {
        self.magnitude() > INFINITY
    }

    /// Where the number stands among all numbers: numbers have the order of
    /// these integers.  Both zeros stand at 0.
    pub open spec fn place(self) -> int {
        if self.bits < SIGN {
            self.magnitude()
        } else {
            -self.magnitude()
        }
    }

    /// The order of two scores.  What is no number counts as equal to anything.
    pub open spec fn order_of(self, other: Score) -> Ordering {
        if self.is_nan() || other.is_nan() {
            Ordering::Equal
        } else if self.place() < other.place() {
            Ordering::Less
        } else if self.place() > other.place() {
            Ordering::Greater
        } else {
            Ordering::Equal
        }
    }

    /// The score of a result that has none.
    pub fn zero() -> (res: Score)
        ensures
            res == Score::zero_of(),
    {
        Score { bits: 0 }
    }

    /// Where the score stands among all numbers, or nothing for what is no
    /// number.
    fn position(self) -> (res: Option<i64>)
        ensures
            res is None <==> self.is_nan(),
            res is Some ==> res->0 == self.place(),
    {
        let magnitude: u64 = if self.bits < SIGN {
            self.bits
        } else {
            self.bits - SIGN
        };
        if magnitude > INFINITY {
            None
        } else if self.bits < SIGN {
            Some(magnitude as i64)
        } else {
            Some(-(magnitude as i64))
        }
    }

    /// The order of two scores.
    pub fn compared_to(self, other: Score) -> (res: Ordering)
        ensures
            res == self.order_of(other),
    {
        match (self.position(), other.position()) {
            (Some(left), Some(right)) => if left < right {
                Ordering::Less
            } else if left > right {
                Ordering::Greater
            } else {
                Ordering::Equal
            },
            _ => Ordering::Equal,
        }
    }
}

/// A search result as it comes from upstream.
#[derive(Clone, Debug, PartialEq, Eq)]
pub struct SearxngResult {
    /// The address of the page.
    pub url: Option<String>,
    /// The title of the page.
    pub title: Option<String>,
    /// The engine that found it.
    pub engine: Option<String>,
    /// An excerpt.
    pub content: Option<String>,
    /// How highly upstream rates it.
    pub score: Option<Score>,
    /// All engines that found it.
    pub engines: Vec<String>,
    /// Where each of those engines ranked it.
    pub positions: Vec<u32>,
    /// The search category.
    pub category: Option<String>,
    /// The template that upstream shows it with.
    pub template: Option<String>,
    /// When it was published, as an ISO 8601 date with or without a time.
    pub published_date: Option<String>,
    /// The address of an image.
    pub img_src: Option<String>,
    /// The address of a small image.
    pub thumbnail_src: Option<String>,
    /// The format of the image.
    pub img_format: Option<String>,
    /// The size of the image.
    pub resolution: Option<String>,
}

}
