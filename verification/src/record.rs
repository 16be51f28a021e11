//! The record model: the status projection of a catalog item version, and
//! the byte names of the closed status set.

use vstd::prelude::*;

verus! {

/// Publication status of a catalog item version; the closed set a record's
/// `status` field may carry.
#[derive(Clone, Copy, PartialEq, Eq, Structural, Debug)]
pub enum Status {
    Approved,
    Initiated,
    Unpublished,
}

/// Minimal projection of a full item-version record: identifier, version and
/// status only. Decodable from the same bytes that encode the full record.
pub struct StatusProjection {
    /// The item's stable identifier, as the bytes of its `tcin` field.
    pub tcin: Vec<u8>,
    /// The record's version number.
    pub version: u32,
    /// The record's publication status.
    pub status: Status,
}

/// Mathematical shape of a status projection.
pub ghost struct ProjectionView {
    pub tcin: Seq<u8>,
    pub version: u32,
    pub status: Status,
}

impl View for StatusProjection {
    type V = ProjectionView;

    open spec fn view(&self) -> ProjectionView {
        ProjectionView { tcin: self.tcin@, version: self.version, status: self.status }
    }
}

/// The bytes that name a status inside an encoded record: `APPROVED`,
/// `INITIATED` or `UNPUBLISHED`.
pub open spec fn status_name(st: Status) -> Seq<u8> {
    match st {
        Status::Approved => seq![65u8, 80, 80, 82, 79, 86, 69, 68],
        Status::Initiated => seq![73u8, 78, 73, 84, 73, 65, 84, 69, 68],
        Status::Unpublished => seq![85u8, 78, 80, 85, 66, 76, 73, 83, 72, 69, 68],
    }
}

/// The status named by the given bytes, if any.
pub open spec fn status_of(name: Seq<u8>) -> Option<Status> {
    if name == status_name(Status::Approved) {
        Some(Status::Approved)
    } else if name == status_name(Status::Initiated) {
        Some(Status::Initiated)
    } else if name == status_name(Status::Unpublished) {
        Some(Status::Unpublished)
    } else {
        None
    }
}

/// The bytes that name `st`, as a vector.
pub fn status_name_bytes(st: Status) -> (r: Vec<u8>)
    ensures
        r@ == status_name(st),
{
    let mut v: Vec<u8> = Vec::new();
    match st {
        Status::Approved => {
            v.push(65);
            v.push(80);
            v.push(80);
            v.push(82);
            v.push(79);
            v.push(86);
            v.push(69);
            v.push(68);
        }
        Status::Initiated => {
            v.push(73);
            v.push(78);
            v.push(73);
            v.push(84);
            v.push(73);
            v.push(65);
            v.push(84);
            v.push(69);
            v.push(68);
        }
        Status::Unpublished => {
            v.push(85);
            v.push(78);
            v.push(80);
            v.push(85);
            v.push(66);
            v.push(76);
            v.push(73);
            v.push(83);
            v.push(72);
            v.push(69);
            v.push(68);
        }
    }
    proof {
        assert(v@ =~= status_name(st));
    }
    v
}

} // verus!
