//! Example content types for op payloads.
//!
//! The engine replicates opaque bytes; these small types are the shapes
//! tests and demonstrations write into ops: a public post, a public
//! message, and a private message, gathered in one entry enum.

use vstd::prelude::*;

verus! {

/// A public post.
#[derive(Clone, Debug, PartialEq)]
pub struct Post(pub Vec<u8>);

/// A public message.
#[derive(Clone, Debug, PartialEq)]
pub struct Msg(pub Vec<u8>);

/// A private message.
#[derive(Clone, Debug, PartialEq)]
pub struct PrivMsg(pub Vec<u8>);

/// The entry kinds example content can take.
#[derive(Clone, Debug, PartialEq)]
pub enum EntryTypes {
    Post(Post),
    Msg(Msg),
    PrivMsg(PrivMsg),
}

impl EntryTypes {
    /// The bytes of this entry's content.
    pub open spec fn spec_content(self) -> Seq<u8> {
        match self {
            EntryTypes::Post(p) => p.0@,
            EntryTypes::Msg(m) => m.0@,
            EntryTypes::PrivMsg(m) => m.0@,
        }
    }

    /// Serialize to an op payload: a kind byte, then the content.
    pub fn to_payload(&self) -> (r: Vec<u8>)
        ensures
            r@ == seq![self.spec_kind_byte()] + self.spec_content(),
    {
        let mut buf: Vec<u8> = Vec::new();
        match self {
            EntryTypes::Post(p) => {
                buf.push(0);
                crate::wire::push_bytes(&mut buf, &p.0);
            },
            EntryTypes::Msg(m) => {
                buf.push(1);
                crate::wire::push_bytes(&mut buf, &m.0);
            },
            EntryTypes::PrivMsg(m) => {
                buf.push(2);
                crate::wire::push_bytes(&mut buf, &m.0);
            },
        }
        proof {
            assert(buf@ =~= seq![self.spec_kind_byte()] + self.spec_content());
        }
        buf
    }

    /// The tag byte of this entry's kind.
    pub open spec fn spec_kind_byte(self) -> u8 {
        match self {
            EntryTypes::Post(_) => 0u8,
            EntryTypes::Msg(_) => 1u8,
            EntryTypes::PrivMsg(_) => 2u8,
        }
    }
}

} // verus!
