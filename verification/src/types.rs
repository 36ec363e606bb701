//! Value types shared by every order-book engine of the crate. None of them
//! says anything about how an engine lays out its storage.

use vstd::prelude::*;

verus! {

/// Fixed-point price. One unit is one tick of the instrument; all price
/// arithmetic is integer arithmetic.
#[derive(Debug, Clone, Copy, PartialEq, Eq, PartialOrd, Ord, Hash, Structural)]
pub struct Price(pub u64);

/// The side of the book an order rests on, or the side an aggressor trades as.
#[derive(Debug, Clone, Copy, PartialEq, Eq, Structural)]
pub enum Side {
    Bid,
    Ask,
}

impl Side {
    /// The side that an order of this side trades against.
    pub open spec fn other(self) -> Side {
        match self {
            Side::Bid => Side::Ask,
            Side::Ask => Side::Bid,
        }
    }
}

/// What to do with unfilled quantity on a market order.
#[derive(Debug, Clone, Copy, PartialEq, Eq, Structural)]
pub enum MarketOrderMode {
    /// Fill as much as possible; cancel any unfilled remainder.
    ImmediateOrCancel,
    /// Fill everything or fill nothing. If the full quantity is unavailable,
    /// cancel and report zero fills.
    FillOrKill,
}

/// Outcome of a market order. Carries only the unfilled quantity; what was
/// filled follows from the requested quantity, which the caller has at hand.
#[derive(Debug, Clone, Copy, PartialEq, Eq, Structural)]
pub struct MarketOrderResult {
    pub remaining: u64,
}

impl MarketOrderResult {
    /// Quantity that was actually filled.
    pub fn filled(self, requested: u64) -> (r: u64)
        requires
            self.remaining <= requested,
        ensures
            r == requested - self.remaining,
    {
        requested - self.remaining
    }

    /// True if any quantity was cancelled (a partial fill or a kill).
    pub fn cancelled(self) -> (r: bool)
        ensures
            r <==> self.remaining > 0,
    {
        self.remaining > 0
    }
}

/// Where the memory of a slab comes from.
#[derive(Debug, Clone, Copy, PartialEq, Eq, Structural)]
pub enum SlabAllocator {
    /// The system allocator. Works everywhere.
    System,
    /// Mapped memory for which the kernel is asked to prefer huge pages.
    MadvHugepage,
    /// Mapped memory from a reserved pool of huge pages.
    Hugetlb,
}

impl SlabAllocator {
    /// The short name of an allocator.
    pub open spec fn name(self) -> Seq<char> {
        match self {
            SlabAllocator::System => "system"@,
            SlabAllocator::MadvHugepage => "madvise"@,
            SlabAllocator::Hugetlb => "hugetlb"@,
        }
    }

    /// The allocator that a word names, by its short name or an alias.
    pub open spec fn named(word: Seq<char>) -> Option<SlabAllocator> {
        if word == "system"@ || word == "vec"@ {
            Some(SlabAllocator::System)
        } else if word == "madvise"@ || word == "madv_hugepage"@ || word == "madv-hugepage"@ {
            Some(SlabAllocator::MadvHugepage)
        } else if word == "hugetlb"@ || word == "map_hugetlb"@ || word == "map-hugetlb"@ {
            Some(SlabAllocator::Hugetlb)
        } else {
            None
        }
    }

    /// Short name, fit for file names.
    pub fn slug(self) -> (r: &'static str)
        ensures
            r@ == self.name(),
    {
        match self {
            SlabAllocator::System => "system",
            SlabAllocator::MadvHugepage => "madvise",
            SlabAllocator::Hugetlb => "hugetlb",
        }
    }

    /// The allocator that `s` names, white space around it aside. Accepts the
    /// short names and common aliases.
    pub fn parse(s: &str) -> (r: Option<Self>)
        ensures
            r == SlabAllocator::named(trimmed(s@)),
    {
        let word: String = trim(s).to_owned();
        if word == "system".to_owned() || word == "vec".to_owned() {
            Some(SlabAllocator::System)
        } else if word == "madvise".to_owned() || word == "madv_hugepage".to_owned() || word
            == "madv-hugepage".to_owned() {
            Some(SlabAllocator::MadvHugepage)
        } else if word == "hugetlb".to_owned() || word == "map_hugetlb".to_owned() || word
            == "map-hugetlb".to_owned() {
            Some(SlabAllocator::Hugetlb)
        } else {
            None
        }
    }

    /// Parsing the short name of an allocator gives that allocator back.
    pub proof fn law_slug_parses(self)
        ensures
            SlabAllocator::named(trimmed(self.name())) == Some(self),
    {
        reveal_strlit("system");
        reveal_strlit("vec");
        reveal_strlit("madvise");
        reveal_strlit("madv_hugepage");
        reveal_strlit("madv-hugepage");
        reveal_strlit("hugetlb");
        assert("hugetlb"@[0] == 'h');
        assert("madvise"@[0] == 'm');
        assert("system"@[0] == 's');
        assert("hugetlb"@[6] == 'b');
        assert("madvise"@[6] == 'e');
        assert("system"@[5] == 'm');
        assert("madvise"@.len() == 7 && "hugetlb"@.len() == 7 && "system"@.len() == 6);
        assert("madv_hugepage"@.len() == 13 && "madv-hugepage"@.len() == 13 && "vec"@.len() == 3);
        assert(trimmed(self.name()) == self.name());
    }
}

/// `c` has the Unicode property `White_Space`.
pub open spec fn is_white(c: char) -> bool {
    let n = c as int;
    ||| 0x9 <= n <= 0xD
    ||| n == 0x20
    ||| n == 0x85
    ||| n == 0xA0
    ||| n == 0x1680
    ||| 0x2000 <= n <= 0x200A
    ||| 0x2028 <= n <= 0x2029
    ||| n == 0x202F
    ||| n == 0x205F
    ||| n == 0x3000
}

/// `s` without the white space at its front.
pub open spec fn without_lead(s: Seq<char>) -> Seq<char>
    decreases s.len(),
{
    if s.len() > 0 && is_white(s[0]) {
        without_lead(s.drop_first())
    } else {
        s
    }
}

/// `s` without the white space at its back.
pub open spec fn without_trail(s: Seq<char>) -> Seq<char>
    decreases s.len(),
{
    if s.len() > 0 && is_white(s[s.len() - 1]) {
        without_trail(s.drop_last())
    } else {
        s
    }
}

/// `s` without the white space around it.
pub open spec fn trimmed(s: Seq<char>) -> Seq<char> {
    without_trail(without_lead(s))
}

/// `s` without the white space around it, as [`str::trim`] gives it. White
/// space is what has the Unicode property `White_Space`.
#[verifier::external_body]
fn trim(s: &str) -> (r: &str)
    ensures
        r@ == trimmed(s@),
{
    s.trim()
}

} // verus!
