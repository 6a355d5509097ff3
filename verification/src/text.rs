//! How chains are shown to people.

use crate::candidate::Candidate;
use crate::chain::Chain;
use crate::chain_model::ChainModel;
use crate::id::PublicId;
use crate::order::Checked;
use crate::ordered::{sorted, OrderedSet};
use crate::prefix::Prefix;
use crate::section_info::{SectionInfo, SectionModel};
use crate::sha3::Digest256;
use crate::shared_state::PrefixChange;
use crate::xor_name::XorName;
use vstd::prelude::*;

verus! {

/// The character for a digit.
pub open spec fn digit(d: nat) -> char {
    (if d < 10 {
        48 + d
    } else {
        87 + d
    }) as char
}

/// A number in decimal digits.
pub open spec fn decimal(n: nat) -> Seq<char>
    decreases n,
{
    if n < 10 {
        seq![digit(n)]
    } else {
        decimal(n / 10).push(digit(n % 10))
    }
}

/// Bits as digits.
pub open spec fn bits_text(bits: Seq<bool>) -> Seq<char>
    decreases bits.len(),
{
    if bits.len() == 0 {
        Seq::empty()
    } else {
        bits_text(bits.drop_last()).push(digit(if bits.last() { 1 } else { 0 }))
    }
}

/// A byte in two hexadecimal digits.
pub open spec fn hex_text(b: u8) -> Seq<char> {
    seq![digit(b as nat / 16), digit(b as nat % 16)]
}

/// The first three bytes of a byte string, which has at least three.
pub open spec fn short_text(bytes: Seq<u8>) -> Seq<char> {
    hex_text(bytes[0]) + hex_text(bytes[1]) + hex_text(bytes[2]) + ".."@
}

/// A prefix.
pub open spec fn prefix_text(p: Prefix) -> Seq<char> {
    "Prefix("@ + bits_text(p.bits()) + ")"@
}

/// The names of nodes, one behind the other.
pub open spec fn members_text(ids: Seq<PublicId>) -> Seq<char>
    decreases ids.len(),
{
    if ids.len() == 0 {
        ""@
    } else {
        members_text(ids.drop_last()) + " "@ + short_text(ids.last().xor_name().0@)
    }
}

/// A section.
pub open spec fn section_text(info: SectionModel) -> Seq<char> {
    "SectionInfo(prefix: "@ + prefix_text(info.prefix) + ", version: "@ + decimal(
        info.version as nat,
    ) + ", members:"@ + members_text(sorted::<PublicId>(info.members)) + ")"@
}

/// A change of our prefix.
pub open spec fn change_text(change: PrefixChange) -> Seq<char> {
    match change {
        PrefixChange::Stable => "None"@,
        PrefixChange::Splitting => "Splitting"@,
        PrefixChange::Merging => "Merging"@,
    }
}

/// Digests, with a comma and a space between them.
pub open spec fn digests_text(digests: Seq<Digest256>) -> Seq<char>
    decreases digests.len(),
{
    if digests.len() == 0 {
        ""@
    } else {
        digests_text(digests.drop_last()) + (if digests.len() == 1 {
            ""@
        } else {
            ", "@
        }) + short_text(digests.last().0@)
    }
}

impl ChainModel {
    /// The first lines: what the chain says of ourselves.
    pub open spec fn head_text(self) -> Seq<char> {
        "Chain {\n\tchange: "@ + change_text(self.state.change) + ",\n\tour_id: "@ + short_text(
            self.our_name().0@,
        ) + ",\n\tour_version: "@ + decimal(self.our_info().version as nat) + "\n\tis_member: "@ + (
        if self.is_member {
            "true"@
        } else {
            "false"@
        }) + ",\n\tnew_info: "@ + section_text(self.state.new_info) + "\n\tmerging: {"@
            + digests_text(sorted::<Digest256>(self.state.merging)) + "}\n"@
    }

    /// A line for each of the first `n` descriptions of our section.
    pub open spec fn our_infos_text(self, n: nat) -> Seq<char>
        decreases n,
    {
        if n == 0 {
            "\tour_infos: len "@ + decimal(self.state.our_infos.len()) + "\n"@
        } else {
            self.our_infos_text((n - 1) as nat) + "\t"@ + section_text(
                self.state.our_infos[n - 1].0,
            ) + "\n"@
        }
    }

    /// Two lines for each of the first `n` neighbours.
    pub open spec fn neighbours_text(self, n: nat) -> Seq<char>
        decreases n,
    {
        if n == 0 {
            "\tneighbour_infos:\n"@
        } else {
            let p = self.keys()[n - 1];
            self.neighbours_text((n - 1) as nat) + "\t "@ + prefix_text(p)
                + " signed by our_version: "@ + decimal(self.neighbours[p].our_version as nat)
                + "\n\t "@ + section_text(self.neighbours[p].sec_info) + "\n"@
        }
    }

    /// A line for each of the first `n` sections that know ours.
    pub open spec fn knowledge_text(self, n: nat) -> Seq<char>
        decreases n,
    {
        let keys = sorted::<Prefix>(self.their_knowledge.dom());
        if n == 0 {
            "\ttheir_knowledge: len "@ + decimal(keys.len()) + "\n"@
        } else {
            let p = keys[n - 1];
            self.knowledge_text((n - 1) as nat) + "\t"@ + prefix_text(p) + " knows our_version: "@
                + decimal(self.their_knowledge[p] as nat) + "\n"@
        }
    }

    /// All that there is to see of a chain.
    pub open spec fn full_text(self) -> Seq<char> {
        self.head_text() + self.our_infos_text(self.state.our_infos.len()) + self.neighbours_text(
            self.keys().len(),
        ) + self.knowledge_text(sorted::<Prefix>(self.their_knowledge.dom()).len()) + "}\n"@
    }

    /// What there is to say about the node that is about to join our section, if there is one.
    pub open spec fn candidate_text(self, log_ident: Seq<char>) -> Option<Seq<char>> {
        match self.candidate {
            Candidate::Nobody => None,
            Candidate::AcceptedForResourceProof { old_pub_id, target_interval } => Some(
                log_ident + " - candidate "@ + short_text(old_pub_id.xor_name().0@)
                    + " is being tested"@,
            ),
            Candidate::ApprovedWaitingSectionInfo { new_pub_id } => Some(
                log_ident + " - candidate "@ + short_text(new_pub_id.xor_name().0@)
                    + " was approved"@,
            ),
        }
    }

    /// The name of the node and the prefix of its section.
    pub open spec fn short_text(self) -> Seq<char> {
        "Node("@ + short_text(self.our_name().0@) + "("@ + bits_text(self.our_prefix().bits())
            + "))"@
    }
}

/// Appends a digit.
fn push_digit(out: &mut String, d: u8)
    requires
        d < 16,
    ensures
        final(out)@ == old(out)@.push(digit(d as nat)),
{
    let ghost start = out@;
    let s = match d {
        0 => "0",
        1 => "1",
        2 => "2",
        3 => "3",
        4 => "4",
        5 => "5",
        6 => "6",
        7 => "7",
        8 => "8",
        9 => "9",
        10 => "a",
        11 => "b",
        12 => "c",
        13 => "d",
        14 => "e",
        _ => "f",
    };
    proof {
        reveal_strlit("0");
        reveal_strlit("1");
        reveal_strlit("2");
        reveal_strlit("3");
        reveal_strlit("4");
        reveal_strlit("5");
        reveal_strlit("6");
        reveal_strlit("7");
        reveal_strlit("8");
        reveal_strlit("9");
        reveal_strlit("a");
        reveal_strlit("b");
        reveal_strlit("c");
        reveal_strlit("d");
        reveal_strlit("e");
        reveal_strlit("f");
        assert(s@ =~= seq![digit(d as nat)]);
    }
    out.append(s);
    assert(out@ =~= start.push(digit(d as nat)));
}

/// Returns a number in decimal digits.
pub fn decimal_string(n: u64) -> (r: String)
    ensures
        r@ == decimal(n as nat),
    decreases n,
{
    let mut r = if n < 10 {
        let r = String::from_str("");
        proof {
            reveal_strlit("");
        }
        assert(r@.push(digit(n as nat)) =~= seq![digit(n as nat)]);
        r
    } else {
        decimal_string(n / 10)
    };
    push_digit(&mut r, (n % 10) as u8);
    r
}

/// Appends the first three bytes of a byte string.
fn short_string(a: u8, b: u8, c: u8) -> (r: String)
    ensures
        r@ == hex_text(a) + hex_text(b) + hex_text(c) + ".."@,
{
    let mut r = String::from_str("");
    push_digit(&mut r, a / 16);
    push_digit(&mut r, a % 16);
    push_digit(&mut r, b / 16);
    push_digit(&mut r, b % 16);
    push_digit(&mut r, c / 16);
    push_digit(&mut r, c % 16);
    proof {
        reveal_strlit("");
        assert(r@ =~= hex_text(a) + hex_text(b) + hex_text(c));
    }
    r.append("..");
    r
}

/// Returns the short form of a name.
pub fn name_string(name: &XorName) -> (r: String)
    ensures
        r@ == short_text(name.0@),
{
    short_string(name.0[0], name.0[1], name.0[2])
}

/// Returns the bits of a prefix as digits.
pub fn bits_string(p: &Prefix) -> (r: String)
    requires
        p.inv(),
    ensures
        r@ == bits_text(p.bits()),
{
    let mut r = String::from_str("");
    proof {
        reveal_strlit("");
        p.bits_bound();
        assert(r@ =~= bits_text(p.bits().take(0)));
    }
    let mut i: usize = 0;
    while i < p.bit_count()
        invariant
            p.inv(),
            i <= p.bits().len(),
            r@ == bits_text(p.bits().take(i as int)),
        decreases p.bits().len() - i,
    {
        let d: u8 = if p.bit(i) {
            1
        } else {
            0
        };
        push_digit(&mut r, d);
        assert(p.bits().take(i + 1).drop_last() =~= p.bits().take(i as int));
        i += 1;
    }
    assert(p.bits().take(i as int) =~= p.bits());
    r
}

/// Returns a prefix with what it is.
pub fn prefix_string(p: &Prefix) -> (r: String)
    requires
        p.inv(),
    ensures
        r@ == prefix_text(*p),
{
    let mut r = String::from_str("Prefix(");
    r.append(bits_string(p).as_str());
    r.append(")");
    r
}

/// Returns the names of nodes, one behind the other.
fn members_string(members: &OrderedSet<PublicId>) -> (r: String)
    requires
        members.inv(),
    ensures
        r@ == members_text(sorted::<PublicId>(members@)),
{
    let ghost s = members.seq();
    proof {
        members.lemma_inv();
    }
    let mut r = String::from_str("");
    let mut i: usize = 0;
    while i < members.len()
        invariant
            members.inv(),
            s == members.seq(),
            i <= s.len(),
            r@ == members_text(s.take(i as int)),
        decreases s.len() - i,
    {
        r.append(" ");
        r.append(name_string(members.at(i).name()).as_str());
        assert(s.take(i + 1).drop_last() =~= s.take(i as int));
        i += 1;
    }
    assert(s.take(i as int) =~= s);
    r
}

/// Returns digests, with a comma and a space between them.
fn digests_string(digests: &OrderedSet<Digest256>) -> (r: String)
    requires
        digests.inv(),
    ensures
        r@ == digests_text(sorted::<Digest256>(digests@)),
{
    let ghost s = digests.seq();
    proof {
        digests.lemma_inv();
    }
    let mut r = String::from_str("");
    let mut i: usize = 0;
    while i < digests.len()
        invariant
            digests.inv(),
            s == digests.seq(),
            i <= s.len(),
            r@ == digests_text(s.take(i as int)),
        decreases s.len() - i,
    {
        r.append(if i == 0 {
            ""
        } else {
            ", "
        });
        let d = digests.at(i);
        r.append(short_string(d.0[0], d.0[1], d.0[2]).as_str());
        assert(s.take(i + 1).drop_last() =~= s.take(i as int));
        i += 1;
    }
    assert(s.take(i as int) =~= s);
    r
}

/// Returns a section with what it is.
pub fn section_string(info: &SectionInfo) -> (r: String)
    requires
        info.inv(),
    ensures
        r@ == section_text(info@),
{
    let mut r = String::from_str("SectionInfo(prefix: ");
    r.append(prefix_string(info.prefix()).as_str());
    r.append(", version: ");
    r.append(decimal_string(info.version()).as_str());
    r.append(", members:");
    r.append(members_string(info.members()).as_str());
    r.append(")");
    r
}

impl Chain {
    /// Returns the first lines: what the chain says of ourselves.
    fn head_string(&self) -> (r: String)
        requires
            self.inv(),
        ensures
            r@ == self@.head_text(),
    {
        let state = self.shared_state();
        let mut r = String::from_str("Chain {\n\tchange: ");
        r.append(
            match state.change {
                PrefixChange::Stable => "None",
                PrefixChange::Splitting => "Splitting",
                PrefixChange::Merging => "Merging",
            },
        );
        r.append(",\n\tour_id: ");
        r.append(name_string(self.our_id().name()).as_str());
        r.append(",\n\tour_version: ");
        r.append(decimal_string(state.our_version()).as_str());
        r.append("\n\tis_member: ");
        r.append(
            if self.is_member() {
                "true"
            } else {
                "false"
            },
        );
        r.append(",\n\tnew_info: ");
        r.append(section_string(&state.new_info).as_str());
        r.append("\n\tmerging: {");
        r.append(digests_string(&state.merging).as_str());
        r.append("}\n");
        r
    }

    /// Returns the lines for the descriptions of our section.
    fn our_infos_string(&self) -> (r: String)
        requires
            self.inv(),
        ensures
            r@ == self@.our_infos_text(self@.state.our_infos.len()),
    {
        let state = self.shared_state();
        let n = state.our_infos.len();
        let mut r = String::from_str("\tour_infos: len ");
        r.append(decimal_string(n as u64).as_str());
        r.append("\n");
        let mut i: usize = 0;
        while i < n
            invariant
                self.inv(),
                state.inv(),
                state@ == self@.state,
                n == state.our_infos@.len(),
                i <= n,
                r@ == self@.our_infos_text(i as nat),
            decreases n - i,
        {
            assert(state.our_infos@[i as int].0.inv());
            assert(self@.state.our_infos[i as int].0 == state.our_infos@[i as int].0@);
            r.append("\t");
            r.append(section_string(&state.our_infos[i].0).as_str());
            r.append("\n");
            i += 1;
        }
        r
    }

    /// Returns the lines for the neighbours.
    fn neighbours_string(&self) -> (r: String)
        requires
            self.inv(),
        ensures
            r@ == self@.neighbours_text(self@.keys().len()),
    {
        let neighbours = self.neighbours();
        let ghost keys = neighbours.seq();
        proof {
            neighbours.lemma_inv();
        }
        let mut r = String::from_str("\tneighbour_infos:\n");
        let mut i: usize = 0;
        while i < neighbours.len()
            invariant
                self.inv(),
                neighbours.inv(),
                neighbours@ == self@.neighbours,
                keys == neighbours.seq(),
                keys == self@.keys(),
                i <= keys.len(),
                r@ == self@.neighbours_text(i as nat),
            decreases keys.len() - i,
        {
            r.append("\t ");
            r.append(prefix_string(neighbours.key_at(i)).as_str());
            r.append(" signed by our_version: ");
            r.append(decimal_string(neighbours.value_at(i).our_version()).as_str());
            r.append("\n\t ");
            r.append(section_string(neighbours.value_at(i).sec_info()).as_str());
            r.append("\n");
            i += 1;
        }
        r
    }

    /// Returns the lines for the sections that know ours.
    fn knowledge_string(&self) -> (r: String)
        requires
            self.inv(),
        ensures
            r@ == self@.knowledge_text(sorted::<Prefix>(self@.their_knowledge.dom()).len()),
    {
        let known = self.known_versions();
        let ghost keys = known.seq();
        proof {
            known.lemma_inv();
        }
        let n = known.len();
        let mut r = String::from_str("\ttheir_knowledge: len ");
        r.append(decimal_string(n as u64).as_str());
        r.append("\n");
        let mut i: usize = 0;
        while i < n
            invariant
                self.inv(),
                known.inv(),
                known@ == self@.their_knowledge,
                keys == known.seq(),
                keys == sorted::<Prefix>(self@.their_knowledge.dom()),
                n == keys.len(),
                i <= n,
                r@ == self@.knowledge_text(i as nat),
            decreases n - i,
        {
            r.append("\t");
            r.append(prefix_string(known.key_at(i)).as_str());
            r.append(" knows our_version: ");
            r.append(decimal_string(*known.value_at(i)).as_str());
            r.append("\n");
            i += 1;
        }
        r
    }

    /// Returns all that there is to see of the chain.
    pub fn debug_string(&self) -> (r: String)
        requires
            self.inv(),
        ensures
            r@ == self@.full_text(),
    {
        let mut r = self.head_string();
        r.append(self.our_infos_string().as_str());
        r.append(self.neighbours_string().as_str());
        r.append(self.knowledge_string().as_str());
        r.append("}\n");
        r
    }

    /// Returns what there is to log about ongoing candidate state, if any.
    pub fn show_candidate_status(&self, log_ident: &str) -> (r: Option<String>)
        ensures
            match r {
                Some(text) => self@.candidate_text(log_ident@) == Some(text@),
                None => self@.candidate_text(log_ident@) is None,
            },
    {
        let (id, status) = match self.candidate() {
            Candidate::Nobody => {
                return None;
            },
            Candidate::AcceptedForResourceProof { old_pub_id, target_interval: _ } => (
                old_pub_id,
                " is being tested",
            ),
            Candidate::ApprovedWaitingSectionInfo { new_pub_id } => (new_pub_id, " was approved"),
        };
        let mut r = String::from_str(log_ident);
        r.append(" - candidate ");
        r.append(name_string(id.name()).as_str());
        r.append(status);
        Some(r)
    }

    /// Returns the name of the node and the prefix of its section.
    pub fn display_string(&self) -> (r: String)
        requires
            self.inv(),
        ensures
            r@ == self@.short_text(),
    {
        let mut r = String::from_str("Node(");
        r.append(name_string(self.our_id().name()).as_str());
        r.append("(");
        r.append(bits_string(self.our_prefix()).as_str());
        r.append("))");
        r
    }
}

/// The number that decimal digits stand for.
pub open spec fn number(s: Seq<char>) -> int
    decreases s.len(),
{
    if s.len() == 0 {
        0
    } else {
        10 * number(s.drop_last()) + (s.last() as int - '0' as int)
    }
}

/// The digits that a number is shown with stand for it, and only a single one can be a zero in front.
pub proof fn shown_number_is_meant(n: nat)
    ensures
        number(decimal(n)) == n,
        decimal(n).len() > 0,
        forall|i: int| 0 <= i < decimal(n).len() ==> '0' <= #[trigger] decimal(n)[i] <= '9',
        decimal(n).len() > 1 ==> decimal(n)[0] != '0',
    decreases n,
{
    if n < 10 {
        assert(decimal(n).drop_last() =~= Seq::<char>::empty());
        assert(number(Seq::<char>::empty()) == 0);
    } else {
        shown_number_is_meant(n / 10);
        let s = decimal(n / 10);
        assert(decimal(n).drop_last() =~= s);
        assert(decimal(n)[0] == s[0]);
        if s.len() == 1 {
            assert(s.drop_last() =~= Seq::<char>::empty());
            assert(number(Seq::<char>::empty()) == 0);
        }
    }
}

} // verus!
