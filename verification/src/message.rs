//! Messages that sections vouch for on their way.

use crate::authority::Authority;
use crate::codes::models;
use crate::order::Checked;
use crate::section_info::{ProvingModel, ProvingSection, SectionInfo, SectionModel};
use vstd::prelude::*;

verus! {

/// A message between two authorities.
#[derive(Debug, PartialEq, Eq)]
pub struct RoutingMessage {
    /// The source.
    pub src: Authority,
    /// The destination.
    pub dst: Authority,
    /// What the message says.
    pub content: Vec<u8>,
}

/// A message with the sections that vouch for it.
#[derive(Debug, PartialEq, Eq)]
pub struct SignedRoutingMessage {
    message: RoutingMessage,
    src_section: Option<SectionInfo>,
    proving_sections: Vec<ProvingSection>,
}

/// What a signed message says of its way.
pub struct MessageModel {
    /// The source.
    pub src: Authority,
    /// The destination.
    pub dst: Authority,
    /// What the message says.
    pub content: Seq<u8>,
    /// The section that the message comes from, unless it comes from a single sender.
    pub src_section: Option<SectionModel>,
    /// The sections that vouch for it, the one of the last hop at the end.
    pub proving_sections: Seq<ProvingModel>,
}

impl MessageModel {
    /// The section of the last hop.
    pub open spec fn last_hop(self) -> Option<SectionModel> {
        if self.proving_sections.len() > 0 {
            Some(self.proving_sections.last().sec_info)
        } else {
            self.src_section
        }
    }
}

impl View for SignedRoutingMessage {
    type V = MessageModel;

    closed spec fn view(&self) -> MessageModel {
        MessageModel {
            src: self.message.src,
            dst: self.message.dst,
            content: self.message.content@,
            src_section: match self.src_section {
                Some(info) => Some(info@),
                None => None,
            },
            proving_sections: models(self.proving_sections@),
        }
    }
}

impl SignedRoutingMessage {
    /// The destination and the sections are valid.
    pub closed spec fn inv(&self) -> bool {
        &&& self.message.dst.inv()
        &&& self.src_section matches Some(info) ==> info.inv()
        &&& forall|i: int|
            0 <= i < self.proving_sections@.len() ==> (#[trigger] self.proving_sections@[i]).inv()
    }

    /// Returns a message that no section vouches for yet.
    pub fn new(message: RoutingMessage, src_section: Option<SectionInfo>) -> (r:
        SignedRoutingMessage)
        requires
            message.dst.inv(),
            src_section matches Some(info) ==> info.inv(),
        ensures
            r.inv(),
            r@.src == message.src,
            r@.dst == message.dst,
            r@.content == message.content@,
            r@.src_section == (match src_section {
                Some(info) => Some(info@),
                None => None,
            }),
            r@.proving_sections == Seq::<ProvingModel>::empty(),
    {
        let r = SignedRoutingMessage { message, src_section, proving_sections: Vec::new() };
        assert(r@.proving_sections =~= Seq::<ProvingModel>::empty());
        r
    }

    /// Returns the message itself.
    pub fn routing_message(&self) -> (r: &RoutingMessage)
        ensures
            r.src == self@.src,
            r.dst == self@.dst,
            r.content@ == self@.content,
            self.inv() ==> r.dst.inv(),
    {
        &self.message
    }

    /// Returns the sections that vouch for the message.
    pub fn proving_sections(&self) -> (r: &Vec<ProvingSection>)
        ensures
            models(r@) == self@.proving_sections,
            self.inv() ==> forall|i: int| 0 <= i < r@.len() ==> (#[trigger] r@[i]).inv(),
    {
        &self.proving_sections
    }

    /// Returns the section of the last hop.
    pub fn previous_hop(&self) -> (r: Option<&SectionInfo>)
        requires
            self.inv(),
        ensures
            match r {
                Some(info) => self@.last_hop() == Some(info@) && info.inv(),
                None => self@.last_hop() is None,
            },
    {
        let n = self.proving_sections.len();
        if n > 0 {
            assert(self.proving_sections@[n - 1].inv());
            Some(&self.proving_sections[n - 1].sec_info)
        } else {
            match &self.src_section {
                Some(info) => Some(info),
                None => None,
            }
        }
    }

    /// Removes the last proving section. Returns whether there was one.
    pub fn pop_previous_hop(&mut self) -> (r: bool)
        requires
            old(self).inv(),
        ensures
            final(self).inv(),
            r == (old(self)@.proving_sections.len() > 0),
            final(self)@ == (if r {
                MessageModel {
                    proving_sections: old(self)@.proving_sections.drop_last(),
                    ..old(self)@
                }
            } else {
                old(self)@
            }),
    {
        let ghost before = self.proving_sections@;
        let popped = self.proving_sections.pop();
        let r = popped.is_some();
        proof {
            if r {
                assert(models(self.proving_sections@) =~= models(before).drop_last());
            }
        }
        r
    }

    /// Appends proving sections.
    pub fn extend_proving_sections(&mut self, mut sections: Vec<ProvingSection>)
        requires
            old(self).inv(),
            forall|i: int| 0 <= i < sections@.len() ==> (#[trigger] sections@[i]).inv(),
        ensures
            final(self).inv(),
            final(self)@ == (MessageModel {
                proving_sections: old(self)@.proving_sections + models(sections@),
                ..old(self)@
            }),
    {
        let ghost before = self.proving_sections@;
        let ghost added = sections@;
        self.proving_sections.append(&mut sections);
        proof {
            assert(models(self.proving_sections@) =~= models(before) + models(added));
            assert forall|i: int| 0 <= i < self.proving_sections@.len() implies (
            #[trigger] self.proving_sections@[i]).inv() by {
                if i < before.len() {
                    assert(self.proving_sections@[i] == before[i]);
                } else {
                    assert(self.proving_sections@[i] == added[i - before.len()]);
                }
            }
        }
    }
}

/// The last hop of a message is the section of its last proving section, or its source section where
/// it has none.
pub proof fn last_hop_comes_last(msg: MessageModel, more: ProvingModel)
    ensures
        (MessageModel { proving_sections: msg.proving_sections.push(more), ..msg }).last_hop()
            == Some(more.sec_info),
        (MessageModel { proving_sections: Seq::empty(), ..msg }).last_hop() == msg.src_section,
{
}

} // verus!
