//! The question section of a DNS message.

use vstd::prelude::*;

verus! {

/// `DnsQuestion` represents a question in the question section of a DNS packet.
#[derive(Debug)]
pub struct DnsQuestion {
    /// The domain name being queried.
    pub qname: String,
    /// The type of the query (e.g., A, CNAME).
    pub qtype: u16,
    /// The class of the query, which is typically IN for internet addresses.
    pub qclass: u16,
}

/// What a question asks.
#[verifier::ext_equal]
pub struct QuestionView {
    pub qname: Seq<char>,
    pub qtype: u16,
    pub qclass: u16,
}

impl View for DnsQuestion {
    type V = QuestionView;

    open spec fn view(&self) -> QuestionView {
        QuestionView { qname: self.qname@, qtype: self.qtype, qclass: self.qclass }
    }
}

impl Clone for DnsQuestion {
    fn clone(&self) -> (r: Self)
        ensures
            r@ == self@,
    {
        DnsQuestion { qname: self.qname.clone(), qtype: self.qtype, qclass: self.qclass }
    }
}

/// The views of a list of questions.
pub open spec fn question_views(v: Seq<DnsQuestion>) -> Seq<QuestionView> {
    v.map_values(|q: DnsQuestion| q@)
}

/// Copies a list of questions.
pub fn clone_questions(v: &Vec<DnsQuestion>) -> (r: Vec<DnsQuestion>)
    ensures
        question_views(r@) == question_views(v@),
        r@.len() == v@.len(),
{
    let r = v.clone();
    assert(question_views(r@) =~= question_views(v@));
    r
}

} // verus!
