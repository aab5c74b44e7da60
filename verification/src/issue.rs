use vstd::prelude::*;

verus! {

/// Abstract value of an issue record: each field as a mathematical value.
#[verifier::ext_equal]
pub struct IssueModel {
    pub id: i64,
    pub title: Seq<char>,
    pub description: Option<Seq<char>>,
    pub priority: Seq<char>,
    pub status: Seq<char>,
    pub parent_id: Option<i64>,
}

/// An issue record as the store keeps it. `status` is "open" or "closed";
/// `parent_id` is `None` for a top-level issue.
pub struct Issue {
    pub id: i64,
    pub title: String,
    pub description: Option<String>,
    pub priority: String,
    pub status: String,
    pub parent_id: Option<i64>,
}

impl View for Issue {
    type V = IssueModel;

    open spec fn view(&self) -> IssueModel {
        IssueModel {
            id: self.id,
            title: self.title@,
            description: match self.description {
                Some(d) => Some(d@),
                None => None,
            },
            priority: self.priority@,
            status: self.status@,
            parent_id: self.parent_id,
        }
    }
}

impl Clone for Issue {
    fn clone(&self) -> (r: Self)
        ensures
            r@ == self@,
    {
        Issue {
            id: self.id,
            title: self.title.clone(),
            description: match &self.description {
                Some(d) => Some(d.clone()),
                None => None,
            },
            priority: self.priority.clone(),
            status: self.status.clone(),
            parent_id: self.parent_id,
        }
    }
}

/// The abstract values of a sequence of issue records, in order.
pub open spec fn issues_view(v: Seq<Issue>) -> Seq<IssueModel>
    decreases v.len(),
{
    if v.len() == 0 {
        Seq::empty()
    } else {
        issues_view(v.drop_last()).push(v.last()@)
    }
}

/// `issues_view` maps each record to its abstract value, position by position.
pub proof fn lemma_issues_view(v: Seq<Issue>)
    ensures
        issues_view(v).len() == v.len(),
        forall|i: int| 0 <= i < v.len() ==> issues_view(v)[i] == (#[trigger] v[i])@,
    decreases v.len(),
{
    if v.len() > 0 {
        lemma_issues_view(v.drop_last());
        assert forall|i: int| 0 <= i < v.len() implies issues_view(v)[i] == (#[trigger] v[i])@ by {
            if i < v.len() - 1 {
                assert(v.drop_last()[i] == v[i]);
                assert(issues_view(v)[i] == issues_view(v.drop_last())[i]);
            }
        }
    }
}

/// Equality of two string slices, decided over their abstract contents.
pub fn str_eq(a: &str, b: &str) -> (r: bool)
    ensures
        r == (a@ == b@),
{
    let x: String = a.to_owned();
    let y: String = b.to_owned();
    x == y
}

} // verus!
