//! Identifiers of collections, entities, frames, pages, slots, records and
//! fields, and of values addressed absolutely or relative to a context.
use crate::errors::{Result, TridentError};
use crate::text::{hex_padded, hex_padded_string, push_char};
use vstd::prelude::*;
use vstd::string::*;

verus! {

/// The identifier of a collection; zero is the null identifier.
#[derive(Clone, Copy, Debug, Default, PartialEq, Eq, PartialOrd, Ord, Hash, Structural)]
pub struct Cid(pub u32);

impl Cid {
    /// Whether this is the null identifier.
    pub fn is_null(self) -> (b: bool)
        ensures
            b == (self.0 == 0),
    {
        self.0 == 0
    }

    /// The identifier in lower-case hexadecimal, at least 4 digits wide.
    pub fn to_hex(self) -> (s: String)
        ensures
            s@ == hex_padded(self.0 as nat, 4),
    {
        hex_padded_string(self.0 as u64, 4)
    }
}

/// The identifier of an entity; zero is the null identifier.
#[derive(Clone, Copy, Debug, Default, PartialEq, Eq, PartialOrd, Ord, Hash, Structural)]
pub struct Eid(pub u32);

impl Eid {
    /// Whether this is the null identifier.
    pub fn is_null(self) -> (b: bool)
        ensures
            b == (self.0 == 0),
    {
        self.0 == 0
    }

    /// The identifier in lower-case hexadecimal, at least 4 digits wide.
    pub fn to_hex(self) -> (s: String)
        ensures
            s@ == hex_padded(self.0 as nat, 4),
    {
        hex_padded_string(self.0 as u64, 4)
    }
}

/// The identifier of a frame; zero is the null identifier.
#[derive(Clone, Copy, Debug, Default, PartialEq, Eq, PartialOrd, Ord, Hash, Structural)]
pub struct Fid(pub u32);

impl Fid {
    /// Whether this is the null identifier.
    pub fn is_null(self) -> (b: bool)
        ensures
            b == (self.0 == 0),
    {
        self.0 == 0
    }

    /// The identifier in lower-case hexadecimal, at least 4 digits wide.
    pub fn to_hex(self) -> (s: String)
        ensures
            s@ == hex_padded(self.0 as nat, 4),
    {
        hex_padded_string(self.0 as u64, 4)
    }
}

/// The identifier of a page; zero is the null identifier.
#[derive(Clone, Copy, Debug, Default, PartialEq, Eq, PartialOrd, Ord, Hash, Structural)]
pub struct Pid(pub u32);

impl Pid {
    /// Whether this is the null identifier.
    pub fn is_null(self) -> (b: bool)
        ensures
            b == (self.0 == 0),
    {
        self.0 == 0
    }

    /// The identifier in lower-case hexadecimal, at least 4 digits wide.
    pub fn to_hex(self) -> (s: String)
        ensures
            s@ == hex_padded(self.0 as nat, 4),
    {
        hex_padded_string(self.0 as u64, 4)
    }
}

/// The identifier of a slot; zero is the null identifier.
#[derive(Clone, Copy, Debug, Default, PartialEq, Eq, PartialOrd, Ord, Hash, Structural)]
pub struct Sid(pub u16);

impl Sid {
    /// Whether this is the null identifier.
    pub fn is_null(self) -> (b: bool)
        ensures
            b == (self.0 == 0),
    {
        self.0 == 0
    }

    /// The identifier in lower-case hexadecimal, at least 4 digits wide.
    pub fn to_hex(self) -> (s: String)
        ensures
            s@ == hex_padded(self.0 as nat, 4),
    {
        hex_padded_string(self.0 as u64, 4)
    }
}

/// The identifier of a record; zero is the null identifier.
#[derive(Clone, Copy, Debug, Default, PartialEq, Eq, PartialOrd, Ord, Hash, Structural)]
pub struct Rid(pub u64);

impl Rid {
    /// Whether this is the null identifier.
    pub fn is_null(self) -> (b: bool)
        ensures
            b == (self.0 == 0),
    {
        self.0 == 0
    }

    /// The identifier in lower-case hexadecimal, at least 16 digits wide.
    pub fn to_hex(self) -> (s: String)
        ensures
            s@ == hex_padded(self.0 as nat, 16),
    {
        hex_padded_string(self.0 as u64, 16)
    }
}

/// The identifier of a fixed attribute; zero is the null identifier.
#[derive(Clone, Copy, Debug, Default, PartialEq, Eq, PartialOrd, Ord, Hash, Structural)]
pub struct Aid(pub u16);

impl Aid {
    /// Whether this is the null identifier.
    pub fn is_null(self) -> (b: bool)
        ensures
            b == (self.0 == 0),
    {
        self.0 == 0
    }

    /// The identifier in lower-case hexadecimal, at least 4 digits wide.
    pub fn to_hex(self) -> (s: String)
        ensures
            s@ == hex_padded(self.0 as nat, 4),
    {
        hex_padded_string(self.0 as u64, 4)
    }
}

/// The identifier of a dynamic field; zero is the null identifier.
#[derive(Clone, Copy, Debug, Default, PartialEq, Eq, PartialOrd, Ord, Hash, Structural)]
pub struct Did(pub u16);

impl Did {
    /// Whether this is the null identifier.
    pub fn is_null(self) -> (b: bool)
        ensures
            b == (self.0 == 0),
    {
        self.0 == 0
    }

    /// The identifier in lower-case hexadecimal, at least 4 digits wide.
    pub fn to_hex(self) -> (s: String)
        ensures
            s@ == hex_padded(self.0 as nat, 4),
    {
        hex_padded_string(self.0 as u64, 4)
    }
}

/// Where a slot lives: its collection, entity, frame, page and slot.
#[derive(Clone, Copy, Debug, PartialEq, Eq, Hash, Structural)]
pub struct SlotAddress {
    pub cid: Cid,
    pub eid: Eid,
    pub fid: Fid,
    pub pid: Pid,
    pub sid: Sid,
}

/// A field of a record: a fixed (SQL) attribute or a dynamic (NoSQL) one.
#[derive(Clone, Copy, Debug, PartialEq, Eq, Hash, Structural)]
pub enum FieldId {
    Fixed(Aid),
    Dynamic(Did),
}

/// The number of a field, whichever kind it is.
pub open spec fn field_raw(f: FieldId) -> u16 {
    match f {
        FieldId::Fixed(aid) => aid.0,
        FieldId::Dynamic(did) => did.0,
    }
}

impl FieldId {
    pub fn raw(self) -> (r: u16)
        ensures
            r == field_raw(self),
    {
        match self {
            FieldId::Fixed(aid) => aid.0,
            FieldId::Dynamic(did) => did.0,
        }
    }

    pub fn is_fixed(self) -> (b: bool)
        ensures
            b == (self is Fixed),
    {
        match self {
            FieldId::Fixed(_) => true,
            FieldId::Dynamic(_) => false,
        }
    }
}

/// A value identifier: the address of one field of one slot.
#[derive(Clone, Copy, Debug, PartialEq, Eq, Hash, Structural)]
pub struct Vid {
    pub eid: Eid,
    pub fid: Fid,
    pub pid: Pid,
    pub sid: Sid,
    pub field: FieldId,
}

/// The global text form of a value identifier:
/// `eid-fid-pid-sid-field`, each in hexadecimal, four digits at least.
pub open spec fn global_hex(v: Vid) -> Seq<char> {
    hex_padded(v.eid.0 as nat, 4) + seq!['-'] + hex_padded(v.fid.0 as nat, 4) + seq!['-']
        + hex_padded(v.pid.0 as nat, 4) + seq!['-'] + hex_padded(v.sid.0 as nat, 4) + seq!['-']
        + hex_padded(field_raw(v.field) as nat, 4)
}

impl Vid {
    /// The identifier of a fixed attribute.
    pub fn sql(eid: Eid, fid: Fid, pid: Pid, sid: Sid, aid: Aid) -> (v: Vid)
        ensures
            v == (Vid { eid, fid, pid, sid, field: FieldId::Fixed(aid) }),
    {
        Vid { eid, fid, pid, sid, field: FieldId::Fixed(aid) }
    }

    /// The identifier of a dynamic field.
    pub fn nosql(eid: Eid, fid: Fid, pid: Pid, sid: Sid, did: Did) -> (v: Vid)
        ensures
            v == (Vid { eid, fid, pid, sid, field: FieldId::Dynamic(did) }),
    {
        Vid { eid, fid, pid, sid, field: FieldId::Dynamic(did) }
    }

    pub fn to_global_hex(self) -> (s: String)
        ensures
            s@ == global_hex(self),
    {
        let mut s = self.eid.to_hex();
        push_char(&mut s, '-');
        let f = self.fid.to_hex();
        s.append(f.as_str());
        push_char(&mut s, '-');
        let p = self.pid.to_hex();
        s.append(p.as_str());
        push_char(&mut s, '-');
        let l = self.sid.to_hex();
        s.append(l.as_str());
        push_char(&mut s, '-');
        let r = hex_padded_string(self.field.raw() as u64, 4);
        s.append(r.as_str());
        proof {
            assert(s@ =~= global_hex(self));
        }
        s
    }

    /// The identifier of `field` in the slot at `address`.
    pub fn from_slot(address: SlotAddress, field: FieldId) -> (v: Vid)
        ensures
            v == (Vid {
                eid: address.eid,
                fid: address.fid,
                pid: address.pid,
                sid: address.sid,
                field,
            }),
    {
        Vid { eid: address.eid, fid: address.fid, pid: address.pid, sid: address.sid, field }
    }

    /// The identifier relative to its entity.
    pub fn to_entity_relative(self) -> (r: RelativeVid)
        ensures
            r == (RelativeVid::EntityRelative {
                fid: self.fid,
                pid: self.pid,
                sid: self.sid,
                field: self.field,
            }),
    {
        RelativeVid::EntityRelative { fid: self.fid, pid: self.pid, sid: self.sid, field: self.field }
    }

    /// The identifier relative to its frame.
    pub fn to_frame_relative(self) -> (r: RelativeVid)
        ensures
            r == (RelativeVid::FrameRelative { pid: self.pid, sid: self.sid, field: self.field }),
    {
        RelativeVid::FrameRelative { pid: self.pid, sid: self.sid, field: self.field }
    }

    /// The identifier relative to its page.
    pub fn to_page_relative(self) -> (r: RelativeVid)
        ensures
            r == (RelativeVid::PageRelative { sid: self.sid, field: self.field }),
    {
        RelativeVid::PageRelative { sid: self.sid, field: self.field }
    }
}

/// The entity, frame and page that relative identifiers are resolved in.
#[derive(Clone, Copy, Debug, Default, PartialEq, Eq, Structural)]
pub struct VidContext {
    pub eid: Option<Eid>,
    pub fid: Option<Fid>,
    pub pid: Option<Pid>,
}

/// A value identifier, whole or relative to an entity, a frame or a page.
#[derive(Clone, Copy, Debug, PartialEq, Eq, Structural)]
pub enum RelativeVid {
    Global(Vid),
    EntityRelative { fid: Fid, pid: Pid, sid: Sid, field: FieldId },
    FrameRelative { pid: Pid, sid: Sid, field: FieldId },
    PageRelative { sid: Sid, field: FieldId },
}

/// The message of a resolution that lacks the named part of the context.
pub open spec fn missing_context_message(name: Seq<char>) -> Seq<char> {
    "relative VID cannot be resolved without "@ + name + " context"@
}

/// `e` is the error for a resolution that lacks the named part.
pub open spec fn is_missing_context(e: TridentError, name: Seq<char>) -> bool {
    e matches TridentError::InvalidConfig(m) && m@ == missing_context_message(name)
}

/// The context parts that resolving `r` needs, the missing one first:
/// `None` when all are there, else the name of the first missing part.
pub open spec fn first_missing(r: RelativeVid, c: VidContext) -> Option<Seq<char>> {
    match r {
        RelativeVid::Global(_) => None,
        RelativeVid::EntityRelative { .. } => if c.eid is None {
            Some("EID"@)
        } else {
            None
        },
        RelativeVid::FrameRelative { .. } => if c.eid is None {
            Some("EID"@)
        } else if c.fid is None {
            Some("FID"@)
        } else {
            None
        },
        RelativeVid::PageRelative { .. } => if c.eid is None {
            Some("EID"@)
        } else if c.fid is None {
            Some("FID"@)
        } else if c.pid is None {
            Some("PID"@)
        } else {
            None
        },
    }
}

/// The identifier `r` names in context `c`, where nothing is missing.
pub open spec fn resolved(r: RelativeVid, c: VidContext) -> Vid {
    match r {
        RelativeVid::Global(v) => v,
        RelativeVid::EntityRelative { fid, pid, sid, field } => Vid {
            eid: c.eid.unwrap(),
            fid,
            pid,
            sid,
            field,
        },
        RelativeVid::FrameRelative { pid, sid, field } => Vid {
            eid: c.eid.unwrap(),
            fid: c.fid.unwrap(),
            pid,
            sid,
            field,
        },
        RelativeVid::PageRelative { sid, field } => Vid {
            eid: c.eid.unwrap(),
            fid: c.fid.unwrap(),
            pid: c.pid.unwrap(),
            sid,
            field,
        },
    }
}

impl RelativeVid {
    /// The whole identifier in `context`; fails when a part it needs is
    /// missing from the context.
    pub fn resolve(self, context: VidContext) -> (r: Result<Vid>)
        ensures
            match first_missing(self, context) {
                None => r == Ok::<Vid, TridentError>(resolved(self, context)),
                Some(name) => r matches Err(e) && is_missing_context(e, name),
            },
    {
        match self {
            RelativeVid::Global(vid) => Ok(vid),
            RelativeVid::EntityRelative { fid, pid, sid, field } => {
                let eid = required(context.eid, "EID")?;
                Ok(Vid { eid, fid, pid, sid, field })
            },
            RelativeVid::FrameRelative { pid, sid, field } => {
                let eid = required(context.eid, "EID")?;
                let fid = required(context.fid, "FID")?;
                Ok(Vid { eid, fid, pid, sid, field })
            },
            RelativeVid::PageRelative { sid, field } => {
                let eid = required(context.eid, "EID")?;
                let fid = required(context.fid, "FID")?;
                let pid = required(context.pid, "PID")?;
                Ok(Vid { eid, fid, pid, sid, field })
            },
        }
    }
}

fn required<T: Copy>(value: Option<T>, name: &str) -> (r: Result<T>)
    ensures
        match value {
            Some(v) => r == Ok::<T, TridentError>(v),
            None => r matches Err(e) && is_missing_context(e, name@),
        },
{
    match value {
        Some(v) => Ok(v),
        None => {
            let mut m = String::from_str("relative VID cannot be resolved without ");
            m.append(name);
            m.append(" context");
            Err(TridentError::InvalidConfig(m))
        },
    }
}

} // verus!
