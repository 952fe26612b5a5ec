//! Reasons a graph or its options cannot be laid out.

use vstd::prelude::*;

use vstd::string::StringExecFns;

use crate::graph::Id;
use crate::text::{decimal, push_decimal};

verus! {

/// Layout option named by [`LayoutErr::InvalidOpt`].
#[derive(Clone, Copy, Debug, PartialEq, Eq, Structural)]
pub enum OptField {
    /// `Opts::padding`.
    Padding,
    /// `Opts::block_gap`.
    BlockGap,
    /// `Opts::first_port`.
    FirstPort,
    /// `Opts::port_gap`.
    PortGap,
    /// `Opts::bend_radius`.
    BendRadius,
    /// `Opts::track_padding`.
    TrackPadding,
    /// `Opts::joint_gap`.
    JointGap,
    /// `Opts::header_drop`.
    HeaderDrop,
    /// `Opts::near_straight`.
    NearStraight,
    /// `Opts::line_width`.
    LineWidth,
    /// `Opts::arrow_size`.
    ArrowSize,
}

/// The field name of an option, as it is written in `Opts`.
pub open spec fn field_name(f: OptField) -> Seq<char> {
    match f {
        OptField::Padding => "padding"@,
        OptField::BlockGap => "block_gap"@,
        OptField::FirstPort => "first_port"@,
        OptField::PortGap => "port_gap"@,
        OptField::BendRadius => "bend_radius"@,
        OptField::TrackPadding => "track_padding"@,
        OptField::JointGap => "joint_gap"@,
        OptField::HeaderDrop => "header_drop"@,
        OptField::NearStraight => "near_straight"@,
        OptField::LineWidth => "line_width"@,
        OptField::ArrowSize => "arrow_size"@,
    }
}

impl OptField {
    /// Returns the option's field name.
    pub fn name(self) -> (s: &'static str)
        ensures
            s@ == field_name(self),
    {
        match self {
            OptField::Padding => "padding",
            OptField::BlockGap => "block_gap",
            OptField::FirstPort => "first_port",
            OptField::PortGap => "port_gap",
            OptField::BendRadius => "bend_radius",
            OptField::TrackPadding => "track_padding",
            OptField::JointGap => "joint_gap",
            OptField::HeaderDrop => "header_drop",
            OptField::NearStraight => "near_straight",
            OptField::LineWidth => "line_width",
            OptField::ArrowSize => "arrow_size",
        }
    }
}

/// Why a layout option is invalid.
#[derive(Clone, Copy, Debug, PartialEq, Eq, Structural)]
pub enum OptErr {
    /// The value is NaN or infinite.
    NonFinite,
    /// The finite value is less than zero.
    Negative,
    /// The value is less than or equal to the named option.
    NotGreaterThan(OptField),
}

/// Reason an input graph could not be laid out.
#[derive(Clone, Copy, Debug, PartialEq, Eq, Structural)]
pub enum LayoutErr {
    /// An adjacency entry does not identify a node in this graph.
    InvalidId {
        /// Node with the invalid adjacency entry.
        node: Id,
        /// Out-of-range neighbor.
        edge: Id,
    },
    /// A block has non-finite or negative dimensions.
    InvalidGeom(Id),
    /// A layout option is invalid.
    InvalidOpt {
        /// Option that failed validation.
        field: OptField,
        /// Validation failure.
        err: OptErr,
    },
    /// Predecessor and successor lists disagree.
    NonReciprocal {
        /// Source node.
        from: Id,
        /// Destination node.
        to: Id,
    },
    /// A loop header or its reconstructed loop ancestry is malformed.
    MalformedHeader(Id),
    /// A backedge does not uniquely return to a loop header.
    MalformedBackedge(Id),
    /// An OSR entry cannot be used as a layout root.
    MalformedOsr(Id),
    /// A non-empty graph has no predecessor-free node.
    NoRoot,
    /// No layout root can reach this node.
    Unreachable(Id),
    /// A cycle does not terminate at a flagged backedge block.
    UnmarkedCycle(Id),
    /// Layout exceeded a coordinate or collection-size limit.
    Overflow,
}

/// How an option error reads.
pub open spec fn opt_err_msg(e: OptErr) -> Seq<char> {
    match e {
        OptErr::NonFinite => "must be finite"@,
        OptErr::Negative => "must be non-negative"@,
        OptErr::NotGreaterThan(f) => "must be greater than `"@ + field_name(f) + "`"@,
    }
}

/// How a layout error reads.
pub open spec fn layout_msg(e: LayoutErr) -> Seq<char> {
    match e {
        LayoutErr::InvalidId { node, edge } => "node "@ + decimal(node.0 as nat)
            + " refers to invalid node "@ + decimal(edge.0 as nat),
        LayoutErr::InvalidGeom(id) => "node "@ + decimal(id.0 as nat) + " has an invalid size"@,
        LayoutErr::InvalidOpt { field, err } => "layout option `"@ + field_name(field) + "` "@
            + opt_err_msg(err),
        LayoutErr::NonReciprocal { from, to } => "edge from node "@ + decimal(from.0 as nat)
            + " to node "@ + decimal(to.0 as nat) + " is not reciprocal"@,
        LayoutErr::MalformedHeader(id) => "node "@ + decimal(id.0 as nat)
            + " is a malformed loop header"@,
        LayoutErr::MalformedBackedge(id) => "node "@ + decimal(id.0 as nat)
            + " is a malformed backedge"@,
        LayoutErr::MalformedOsr(id) => "node "@ + decimal(id.0 as nat)
            + " is a malformed OSR entry"@,
        LayoutErr::NoRoot => "non-empty graph has no layout root"@,
        LayoutErr::Unreachable(id) => "node "@ + decimal(id.0 as nat) + " is unreachable"@,
        LayoutErr::UnmarkedCycle(id) => "unmarked cycle reaches node "@ + decimal(id.0 as nat),
        LayoutErr::Overflow => "layout exceeded a coordinate or collection-size limit"@,
    }
}

impl OptErr {
    /// Describes the error.
    pub fn message(&self) -> (s: String)
        ensures
            s@ == opt_err_msg(*self),
    {
        match self {
            OptErr::NonFinite => String::from_str("must be finite"),
            OptErr::Negative => String::from_str("must be non-negative"),
            OptErr::NotGreaterThan(f) => {
                let mut s = String::from_str("must be greater than `");
                s.append(f.name());
                s.append("`");
                s
            },
        }
    }
}

/// `head`, the decimal numeral of `n`, then `tail`.
fn around(head: &str, n: usize, tail: &str) -> (s: String)
    ensures
        s@ == head@ + decimal(n as nat) + tail@,
{
    let mut s = String::from_str(head);
    push_decimal(&mut s, n as u64);
    s.append(tail);
    s
}

impl LayoutErr {
    /// Describes the error.
    pub fn message(&self) -> (s: String)
        ensures
            s@ == layout_msg(*self),
    {
        match self {
            LayoutErr::InvalidId { node, edge } => {
                let mut s = around("node ", node.0, " refers to invalid node ");
                push_decimal(&mut s, edge.0 as u64);
                assert((edge.0 as u64) as nat == edge.0 as nat);
                assert(s@ =~= layout_msg(*self));
                s
            },
            LayoutErr::InvalidGeom(id) => around("node ", id.0, " has an invalid size"),
            LayoutErr::InvalidOpt { field, err } => {
                let mut s = String::from_str("layout option `");
                s.append(field.name());
                s.append("` ");
                let e = err.message();
                s.append(e.as_str());
                s
            },
            LayoutErr::NonReciprocal { from, to } => {
                let mut s = around("edge from node ", from.0, " to node ");
                push_decimal(&mut s, to.0 as u64);
                s.append(" is not reciprocal");
                assert((to.0 as u64) as nat == to.0 as nat);
                assert(s@ =~= layout_msg(*self));
                s
            },
            LayoutErr::MalformedHeader(id) => around("node ", id.0, " is a malformed loop header"),
            LayoutErr::MalformedBackedge(id) => around("node ", id.0, " is a malformed backedge"),
            LayoutErr::MalformedOsr(id) => around("node ", id.0, " is a malformed OSR entry"),
            LayoutErr::NoRoot => String::from_str("non-empty graph has no layout root"),
            LayoutErr::Unreachable(id) => around("node ", id.0, " is unreachable"),
            LayoutErr::UnmarkedCycle(id) => {
                let mut s = String::from_str("unmarked cycle reaches node ");
                push_decimal(&mut s, id.0 as u64);
                assert((id.0 as u64) as nat == id.0 as nat);
                s
            },
            LayoutErr::Overflow => String::from_str(
                "layout exceeded a coordinate or collection-size limit",
            ),
        }
    }
}

} // verus!
