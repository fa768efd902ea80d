//! A firewall of scanners that sweep back and forth, each across its own layer.
//!
//! A packet that enters after some delay reaches the layer at depth `d` at the time
//! `delay + d` and is caught there if the layer's scanner is at the top of its range.

use crate::error::ConfigError;
use crate::text::{chars_of, parse_usize, unsigned_value};
use vstd::prelude::*;

verus! {

/// The depth of a layer and the range its scanner sweeps.
pub struct ScannerModel {
    pub depth: nat,
    pub range: nat,
}

impl ScannerModel {
    /// The number of steps after which the scanner is back at the top: `2 * (range - 1)`.
    pub open spec fn period(self) -> nat {
        (2 * (self.range - 1)) as nat
    }

    /// Whether the scanner is at the top of its range at the absolute time `time`.
    ///
    /// A scanner with a range of one never leaves the top.
    pub open spec fn triggers_at(self, time: nat) -> bool {
        self.range <= 1 || time % self.period() == 0
    }

    /// What being caught by this scanner costs: `depth * range` if it is at the top
    /// at `time`, and nothing otherwise.
    pub open spec fn severity_at(self, time: nat) -> nat {
        if self.triggers_at(time) {
            self.depth * self.range
        } else {
            0
        }
    }

    /// Whether a packet that entered after `delay` is caught in this layer.
    pub open spec fn catches(self, delay: nat) -> bool {
        self.triggers_at(delay + self.depth)
    }

    /// What this layer adds to the severity of a traversal that entered after `delay`.
    pub open spec fn cost(self, delay: nat) -> nat {
        self.severity_at(delay + self.depth)
    }
}

/// The severity of a traversal that enters after `delay`: the costs of all layers
/// in which the packet is caught.
pub open spec fn severity(scanners: Seq<ScannerModel>, delay: nat) -> nat
    decreases scanners.len(),
{
    if scanners.len() == 0 {
        0
    } else {
        severity(scanners.drop_last(), delay) + scanners.last().cost(delay)
    }
}

/// Whether a packet that enters after `delay` is caught in some layer.
pub open spec fn triggers(scanners: Seq<ScannerModel>, delay: nat) -> bool {
    exists|i: int| 0 <= i < scanners.len() && (#[trigger] scanners[i]).catches(delay)
}

/// Whether `delay` is the smallest delay after which a packet passes uncaught.
pub open spec fn is_minimal_safe_delay(scanners: Seq<ScannerModel>, delay: nat) -> bool {
    &&& !triggers(scanners, delay)
    &&& forall|earlier: nat| earlier < delay ==> triggers(scanners, earlier)
}

/// A firewall has one smallest safe delay at most.
pub proof fn lemma_minimal_safe_delay_unique(scanners: Seq<ScannerModel>, a: nat, b: nat)
    requires
        is_minimal_safe_delay(scanners, a),
        is_minimal_safe_delay(scanners, b),
    ensures
        a == b,
{
    if a < b {
        assert(triggers(scanners, a));
    } else if b < a {
        assert(triggers(scanners, b));
    }
}

/// Every scanner is at the top of its range at time zero.
pub proof fn lemma_triggers_at_zero(s: ScannerModel)
    ensures
        s.triggers_at(0),
{
    if s.range > 1 {
        assert(0nat % s.period() == 0);
    }
}

/// A scanner with a range of one is at the top at every time.
pub proof fn lemma_unit_range_always_triggers(s: ScannerModel, time: nat)
    requires
        s.range == 1,
    ensures
        s.triggers_at(time),
{
}

/// A scanner with a range of at least two is at the top exactly at the multiples
/// of its period.
pub proof fn lemma_triggers_at_multiples(s: ScannerModel, time: nat)
    requires
        s.range >= 2,
    ensures
        s.triggers_at(time) <==> time % (2 * (s.range - 1)) as nat == 0,
        s.triggers_at(time) <==> exists|k: nat| time == #[trigger] (k * s.period()),
{
    let p = s.period();
    if time % p == 0 {
        let k = time / p;
        assert(time == k * p) by {
            vstd::arithmetic::div_mod::lemma_fundamental_div_mod(time as int, p as int);
            vstd::arithmetic::mul::lemma_mul_is_commutative(k as int, p as int);
        }
    }
    if exists|k: nat| time == #[trigger] (k * p) {
        let k = choose|k: nat| time == #[trigger] (k * p);
        vstd::arithmetic::div_mod::lemma_mod_multiples_basic(k as int, p as int);
    }
}

/// The scanner's movement repeats: one period later it is at the top again, or again not.
pub proof fn lemma_triggers_periodic(s: ScannerModel, time: nat)
    requires
        s.range >= 1,
    ensures
        s.triggers_at(time + s.period()) == s.triggers_at(time),
{
    if s.range > 1 {
        let p = s.period();
        vstd::arithmetic::div_mod::lemma_mod_add_multiples_vanish(time as int, p as int);
        assert((p + time) % p == time % p);
    }
}

/// The severity of the first layers never exceeds that of all layers.
pub proof fn lemma_severity_prefix(scanners: Seq<ScannerModel>, delay: nat, n: int)
    requires
        0 <= n <= scanners.len(),
    ensures
        severity(scanners.take(n), delay) <= severity(scanners, delay),
    decreases scanners.len(),
{
    if n == scanners.len() {
        assert(scanners.take(n) == scanners);
    } else {
        lemma_severity_prefix(scanners.drop_last(), delay, n);
        assert(scanners.drop_last().take(n) == scanners.take(n));
    }
}

/// A packet that is caught nowhere traverses with severity zero.
pub proof fn lemma_safe_traversal_costs_nothing(scanners: Seq<ScannerModel>, delay: nat)
    requires
        !triggers(scanners, delay),
    ensures
        severity(scanners, delay) == 0,
    decreases scanners.len(),
{
    if scanners.len() > 0 {
        let last = scanners.len() - 1;
        assert(!scanners[last].catches(delay));
        assert forall|i: int| 0 <= i < scanners.drop_last().len() implies !(
        #[trigger] scanners.drop_last()[i]).catches(delay) by {
            assert(scanners.drop_last()[i] == scanners[i]);
        }
        lemma_safe_traversal_costs_nothing(scanners.drop_last(), delay);
    }
}

/// The depth and the range that a line such as `4: 6` writes: a number, a colon,
/// a space and a number.
pub open spec fn scanner_of(line: Seq<char>) -> Option<ScannerModel> {
    match line.index_of_first(':') {
        Some(colon) => if colon + 1 < line.len() && line[colon + 1] == ' ' {
            match (
                unsigned_value(line.take(colon), usize::MAX as nat),
                unsigned_value(line.skip(colon + 2), usize::MAX as nat),
            ) {
                (Some(depth), Some(range)) => Some(ScannerModel { depth, range }),
                _ => None,
            }
        } else {
            None
        },
        None => None,
    }
}

/// Why a line gives no scanner.
#[derive(Debug, Clone, Copy, PartialEq, Eq, Structural)]
pub enum ScannerError {
    /// The line is not a depth, a colon, a space and a range.
    Malformed,
    /// The range is zero.
    ZeroRange,
}

/// One layer of the firewall: its depth and the range its scanner sweeps.
#[derive(Debug)]
pub struct Scanner {
    depth: usize,
    range: usize,
}

impl View for Scanner {
    type V = ScannerModel;

    closed spec fn view(&self) -> ScannerModel {
        ScannerModel { depth: self.depth as nat, range: self.range as nat }
    }
}

impl Scanner {
    #[verifier::type_invariant]
    spec fn well_formed(&self) -> bool {
        self.range >= 1
    }

    /// A scanner at `depth` that sweeps `range` positions. An empty range is rejected.
    pub fn new(depth: usize, range: usize) -> (made: Result<Scanner, ConfigError>)
        ensures
            match made {
                Ok(s) => range > 0 && s@ == (ScannerModel {
                    depth: depth as nat,
                    range: range as nat,
                }),
                Err(e) => range == 0 && e == ConfigError::ZeroRange,
            },
    {
        if range == 0 {
            Err(ConfigError::ZeroRange)
        } else {
            Ok(Scanner { depth, range })
        }
    }

    /// Reads a scanner from a line such as `4: 6`. A range of zero is rejected.
    pub fn parse(line: &str) -> (read: Result<Scanner, ScannerError>)
        ensures
            match read {
                Ok(scanner) => scanner_of(line@) == Some(scanner@) && scanner@.range > 0,
                Err(ScannerError::Malformed) => scanner_of(line@) is None,
                Err(ScannerError::ZeroRange) => scanner_of(line@) matches Some(model)
                    && model.range == 0,
            },
    {
        let chars = chars_of(line);
        let mut colon: usize = 0;
        while colon < chars.len() && chars[colon] != ':'
            invariant
                colon <= chars.len(),
                forall|j: int| 0 <= j < colon ==> chars@[j] != ':',
            decreases chars.len() - colon,
        {
            colon = colon + 1;
        }
        proof {
            line@.index_of_first_ensures(':');
            if colon < chars.len() {
                assert(line@.contains(':'));
                assert(line@.index_of_first(':') == Some(colon as int));
            } else {
                assert(!line@.contains(':'));
            }
        }
        if colon >= chars.len() || colon + 1 >= chars.len() || chars[colon + 1] != ' ' {
            return Err(ScannerError::Malformed);
        }
        let depth_text = line.substring_char(0, colon);
        let range_text = line.substring_char(colon + 2, chars.len());
        proof {
            assert(depth_text@ == line@.take(colon as int));
            assert(range_text@ == line@.skip(colon + 2));
        }
        let depth = match parse_usize(depth_text) {
            Some(n) => n,
            None => {
                return Err(ScannerError::Malformed);
            },
        };
        let range = match parse_usize(range_text) {
            Some(n) => n,
            None => {
                return Err(ScannerError::Malformed);
            },
        };
        match Scanner::new(depth, range) {
            Ok(scanner) => Ok(scanner),
            Err(_) => Err(ScannerError::ZeroRange),
        }
    }

    /// Whether the scanner is at the top at `time`, for times beyond the range of `usize`.
    fn triggers_at_wide(&self, time: u128) -> (hit: bool)
        ensures
            hit == self@.triggers_at(time as nat),
            self@.range >= 1,
    {
        proof {
            use_type_invariant(self);
        }
        if self.range == 1 {
            true
        } else {
            let period: u128 = 2 * ((self.range - 1) as u128);
            time % period == 0
        }
    }

    /// Whether the scanner is at the top of its range at the absolute time `time`.
    pub fn is_zero_at(&self, time: usize) -> (hit: bool)
        ensures
            hit == self@.triggers_at(time as nat),
            self@.range >= 1,
    {
        self.triggers_at_wide(time as u128)
    }

    /// The severity of being caught by this scanner at `time`: `depth * range` if it
    /// is at the top then, and zero otherwise.
    pub fn severity(&self, time: usize) -> (cost: usize)
        requires
            self@.severity_at(time as nat) <= usize::MAX,
        ensures
            cost == self@.severity_at(time as nat),
    {
        if self.is_zero_at(time) {
            self.depth * self.range
        } else {
            0
        }
    }
}

impl std::str::FromStr for Scanner {
    type Err = ScannerError;

    /// Reads a scanner from a line such as `4: 6`. A range of zero is rejected.
    fn from_str(s: &str) -> (read: Result<Self, Self::Err>)
        ensures
            match read {
                Ok(scanner) => scanner_of(s@) == Some(scanner@) && scanner@.range > 0,
                Err(ScannerError::Malformed) => scanner_of(s@) is None,
                Err(ScannerError::ZeroRange) => scanner_of(s@) matches Some(model) && model.range
                    == 0,
            },
    {
        Scanner::parse(s)
    }
}

/// The layers of a firewall, in the order in which they were given.
#[derive(Debug)]
pub struct Firewall {
    scanners: Vec<Scanner>,
}

impl View for Firewall {
    type V = Seq<ScannerModel>;

    closed spec fn view(&self) -> Seq<ScannerModel> {
        self.scanners@.map_values(|s: Scanner| s@)
    }
}

impl Firewall {
    /// The firewall made of the given layers.
    pub fn new(vec: Vec<Scanner>) -> (firewall: Firewall)
        ensures
            firewall@ == vec@.map_values(|s: Scanner| s@),
    {
        Firewall { scanners: vec }
    }

    /// The severity of a traversal that enters after the delay `time`, if it fits
    /// the result type.
    pub fn checked_traverse(&self, time: usize) -> (total: Option<usize>)
        ensures
            match total {
                Some(sum) => sum == severity(self@, time as nat),
                None => severity(self@, time as nat) > usize::MAX,
            },
    {
        let mut total: usize = 0;
        let mut i: usize = 0;
        while i < self.scanners.len()
            invariant
                i <= self.scanners.len(),
                self@.len() == self.scanners.len(),
                total == severity(self@.take(i as int), time as nat),
            decreases self.scanners.len() - i,
        {
            let scanner = &self.scanners[i];
            proof {
                lemma_severity_prefix(self@, time as nat, i + 1);
                assert(self@.take(i + 1).drop_last() == self@.take(i as int));
                assert(self@.take(i + 1).last() == scanner@);
            }
            if scanner.triggers_at_wide(time as u128 + scanner.depth as u128) {
                let cost = match scanner.depth.checked_mul(scanner.range) {
                    Some(cost) => cost,
                    None => {
                        return None;
                    },
                };
                total = match total.checked_add(cost) {
                    Some(more) => more,
                    None => {
                        return None;
                    },
                };
            }
            i = i + 1;
        }
        proof {
            assert(self@.take(i as int) == self@);
        }
        Some(total)
    }

    /// The severity of a traversal that enters after the delay `time`. It has to
    /// fit the result type.
    pub fn traverse(&self, time: usize) -> (total: usize)
        requires
            severity(self@, time as nat) <= usize::MAX,
        ensures
            total == severity(self@, time as nat),
    {
        self.checked_traverse(time).unwrap()
    }

    /// Whether a packet that enters after the delay `time` is caught in some layer.
    pub fn triggers(&self, time: usize) -> (caught: bool)
        ensures
            caught == triggers(self@, time as nat),
    {
        let mut i: usize = 0;
        while i < self.scanners.len()
            invariant
                i <= self.scanners.len(),
                self@.len() == self.scanners.len(),
                forall|j: int| 0 <= j < i ==> !(#[trigger] self@[j]).catches(time as nat),
            decreases self.scanners.len() - i,
        {
            let scanner = &self.scanners[i];
            if scanner.triggers_at_wide(time as u128 + scanner.depth as u128) {
                proof {
                    assert(self@[i as int].catches(time as nat));
                }
                return true;
            }
            i = i + 1;
        }
        false
    }

    /// The smallest delay below `max_delay` after which a packet passes uncaught.
    ///
    /// `None` means that the packet is caught after every delay below `max_delay`.
    pub fn find_minimal_safe_delay(&self, max_delay: usize) -> (found: Option<usize>)
        ensures
            match found {
                Some(delay) => delay < max_delay && is_minimal_safe_delay(self@, delay as nat),
                None => forall|delay: nat| delay < max_delay ==> triggers(self@, delay),
            },
    {
        let mut delay: usize = 0;
        while delay < max_delay
            invariant
                delay <= max_delay,
                forall|earlier: nat| earlier < delay ==> triggers(self@, earlier),
            decreases max_delay - delay,
        {
            if !self.triggers(delay) {
                return Some(delay);
            }
            delay = delay + 1;
        }
        None
    }
}

} // verus!
