//! The AS record: one CIDR-aligned network and its AS attribution.

use vstd::prelude::*;
use vstd::arithmetic::power2::pow2;

verus! {

/// Autonomous System number record.
///
/// `country` and `owner` are short texts carried as raw bytes.
#[derive(Debug, Clone)]
pub struct Record {
    /// Network base IP address (host byte order).
    pub ip: u32,
    /// Network mask prefix in number of bits, e.g. 24 for 255.255.255.0.
    pub prefix_len: u8,
    /// Assigned AS number.
    pub as_number: u32,
    /// Country code of the network owner.
    pub country: Vec<u8>,
    /// Network owner information.
    pub owner: Vec<u8>,
}

/// The mathematical value of a [`Record`].
pub ghost struct RecordView {
    pub ip: u32,
    pub prefix_len: u8,
    pub as_number: u32,
    pub country: Seq<u8>,
    pub owner: Seq<u8>,
}

impl View for Record {
    type V = RecordView;

    open spec fn view(&self) -> RecordView {
        RecordView {
            ip: self.ip,
            prefix_len: self.prefix_len,
            as_number: self.as_number,
            country: self.country@,
            owner: self.owner@,
        }
    }
}

/// A CIDR network: a base address and a prefix length.
#[derive(Clone, Copy, PartialEq, Eq, Structural, Debug)]
pub struct Network {
    /// First address of the network.
    pub base: u32,
    /// Number of leading mask bits, at most 32.
    pub prefix_len: u8,
}

/// How many addresses a network with this prefix length spans.
pub open spec fn net_size(prefix_len: u8) -> nat {
    pow2((32 - prefix_len) as nat)
}

impl Network {
    /// The network is well formed: the prefix length is in range and the
    /// base address has zeros in all host bits.
    pub open spec fn wf(self) -> bool {
        self.prefix_len <= 32 && self.base as nat % net_size(self.prefix_len) == 0
    }

    /// The last address of the network.
    pub open spec fn top(self) -> int {
        self.base + net_size(self.prefix_len) - 1
    }

    /// Whether an address lies inside the network.
    pub open spec fn contains(self, addr: u32) -> bool {
        self.base <= addr <= self.top()
    }
}

impl RecordView {
    /// The record's prefix length stays within an IPv4 address.
    pub open spec fn wf(self) -> bool {
        self.prefix_len <= 32
    }

    /// The network the record attributes, as a value.
    pub open spec fn net(self) -> Network {
        Network { base: self.ip, prefix_len: self.prefix_len }
    }
}

impl PartialEq for Record {
    /// Equality of records goes by the base address alone: it is the
    /// sort key of the store, and country or owner text never takes part
    /// in ordering decisions.
    fn eq(&self, other: &Record) -> (r: bool) {
        self.ip == other.ip
    }
}

impl vstd::std_specs::cmp::PartialEqSpecImpl for Record {
    open spec fn obeys_eq_spec() -> bool {
        true
    }

    open spec fn eq_spec(&self, other: &Record) -> bool {
        self.ip == other.ip
    }
}

/// The mathematical values of a sequence of records.
pub open spec fn views_of(s: Seq<Record>) -> Seq<RecordView> {
    s.map_values(|r: Record| r@)
}

/// `views_of` maps indexes one to one.
pub broadcast proof fn lemma_views_of_index(s: Seq<Record>, i: int)
    requires
        0 <= i < s.len(),
    ensures
        #[trigger] views_of(s)[i] == s[i]@,
{
}

/// `views_of` keeps the length.
pub broadcast proof fn lemma_views_of_len(s: Seq<Record>)
    ensures
        #[trigger] views_of(s).len() == s.len(),
{
}

/// Records ordered (non-strictly) by base address.
pub open spec fn sorted_by_ip(s: Seq<RecordView>) -> bool {
    forall|i: int, j: int| 0 <= i <= j < s.len() ==> s[i].ip <= s[j].ip
}

impl Record {
    /// Reconstructs the CIDR network of the record.
    ///
    /// Only internally constructed records reach this method, and those are
    /// aligned by construction; an unaligned record would be an invariant
    /// violation, so such inputs are excluded rather than handled.
    pub fn network(&self) -> (net: Network)
        requires
            self@.wf(),
            self@.net().wf(),
        ensures
            net == self@.net(),
    {
        Network { base: self.ip, prefix_len: self.prefix_len }
    }
}

} // verus!
