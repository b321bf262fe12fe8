use vstd::prelude::*;

use crate::error::PolicyError;

verus! {

/// Characters allowed in a resource or action name.
pub open spec fn is_name_char(c: char) -> bool {
    ('a' <= c && c <= 'z') || ('A' <= c && c <= 'Z') || ('0' <= c && c <= '9') || c == '_' || c
        == '-' || c == '.'
}

/// A valid resource or action name: non-empty, of name characters only.
pub open spec fn valid_name(s: Seq<char>) -> bool {
    &&& s.len() > 0
    &&& forall|k: int| 0 <= k < s.len() ==> #[trigger] is_name_char(s[k])
}

fn check_name(text: &str) -> (r: bool)
    ensures
        r == valid_name(text@),
{
    let n = text.unicode_len();
    if n == 0 {
        return false;
    }
    let mut k: usize = 0;
    while k < n
        invariant
            n == text@.len(),
            k <= n,
            forall|m: int| 0 <= m < k ==> #[trigger] is_name_char(text@[m]),
        decreases n - k,
    {
        let c = text.get_char(k);
        if !(('a' <= c && c <= 'z') || ('A' <= c && c <= 'Z') || ('0' <= c && c <= '9') || c
            == '_' || c == '-' || c == '.') {
            assert(!is_name_char(text@[k as int]));
            return false;
        }
        k = k + 1;
    }
    true
}

/// The protected entity that a policy governs.
#[derive(Debug, PartialEq, Eq)]
pub struct Resource {
    name: String,
}

impl View for Resource {
    type V = Seq<char>;

    closed spec fn view(&self) -> Seq<char> {
        self.name@
    }
}

impl Resource {
    pub open spec fn wf(&self) -> bool {
        valid_name(self@)
    }

    /// Validates a resource name; no normalisation takes place.
    pub fn parse(text: &str) -> (r: Result<Resource, PolicyError>)
        ensures
            match r {
                Ok(res) => valid_name(text@) && res@ == text@,
                Err(err) => !valid_name(text@) && err == PolicyError::InvalidIdentifier,
            },
    {
        if check_name(text) {
            Ok(Resource { name: text.to_owned() })
        } else {
            Err(PolicyError::InvalidIdentifier)
        }
    }

    pub fn as_str(&self) -> (r: &str)
        ensures
            r@ == self@,
    {
        self.name.as_str()
    }
}

/// The operation class on a resource that a policy governs.
#[derive(Debug, PartialEq, Eq)]
pub struct Action {
    name: String,
}

impl View for Action {
    type V = Seq<char>;

    closed spec fn view(&self) -> Seq<char> {
        self.name@
    }
}

/// The name of the action that applies when none is given.
pub open spec fn handle_message_name() -> Seq<char> {
    seq!['h', 'a', 'n', 'd', 'l', 'e', '_', 'm', 'e', 's', 's', 'a', 'g', 'e']
}

impl Action {
    pub open spec fn wf(&self) -> bool {
        valid_name(self@)
    }

    /// Validates an action name; no normalisation takes place.
    pub fn parse(text: &str) -> (r: Result<Action, PolicyError>)
        ensures
            match r {
                Ok(act) => valid_name(text@) && act@ == text@,
                Err(err) => !valid_name(text@) && err == PolicyError::InvalidIdentifier,
            },
    {
        if check_name(text) {
            Ok(Action { name: text.to_owned() })
        } else {
            Err(PolicyError::InvalidIdentifier)
        }
    }

    /// The given action, or `handle_message` where none is given.
    pub fn parse_or_default(text: Option<&str>) -> (r: Result<Action, PolicyError>)
        ensures
            match text {
                Some(t) => match r {
                    Ok(act) => valid_name(t@) && act@ == t@,
                    Err(err) => !valid_name(t@) && err == PolicyError::InvalidIdentifier,
                },
                None => r matches Ok(act) && act@ == handle_message_name(),
            },
            r matches Ok(act) ==> act.wf(),
    {
        match text {
            Some(t) => Action::parse(t),
            None => Ok(Action::default()),
        }
    }

    pub fn as_str(&self) -> (r: &str)
        ensures
            r@ == self@,
    {
        self.name.as_str()
    }
}

impl Default for Action {
    fn default() -> (r: Action)
        ensures
            r@ == handle_message_name(),
            r.wf(),
    {
        let name = String::from_str("handle_message");
        proof {
            reveal_strlit("handle_message");
            assert(name@ =~= handle_message_name());
        }
        Action { name }
    }
}

/// The route of a policy on a node, and its key in the node's store:
/// `/policy/<resource>/<action>`.
pub open spec fn policy_path(resource: Seq<char>, action: Seq<char>) -> Seq<char> {
    seq!['/', 'p', 'o', 'l', 'i', 'c', 'y', '/'] + resource + seq!['/'] + action
}

/// Computes the policy path of a resource and an action.
pub fn path_for(resource: &Resource, action: &Action) -> (r: String)
    ensures
        r@ == policy_path(resource@, action@),
{
    let mut p = String::from_str("/policy/");
    p.append(resource.as_str());
    p.append("/");
    p.append(action.as_str());
    proof {
        reveal_strlit("/policy/");
        reveal_strlit("/");
        assert(p@ =~= policy_path(resource@, action@));
    }
    p
}

/// Distinct (resource, action) pairs of valid names have distinct policy
/// paths, and equal pairs equal paths.
pub proof fn lemma_path_injective(r1: Seq<char>, a1: Seq<char>, r2: Seq<char>, a2: Seq<char>)
    requires
        valid_name(r1),
        valid_name(a1),
        valid_name(r2),
        valid_name(a2),
    ensures
        (policy_path(r1, a1) == policy_path(r2, a2)) <==> (r1 == r2 && a1 == a2),
{
    let path1 = policy_path(r1, a1);
    let path2 = policy_path(r2, a2);
    let l1 = r1.len() as int;
    let l2 = r2.len() as int;
    if path1 == path2 {
        if r1.len() < r2.len() {
            assert(path1[8 + l1] == '/');
            assert(path2[8 + l1] == r2[r1.len() as int]);
            assert(is_name_char(r2[r1.len() as int]));
        } else if r2.len() < r1.len() {
            assert(path2[8 + l2] == '/');
            assert(path1[8 + l2] == r1[r2.len() as int]);
            assert(is_name_char(r1[r2.len() as int]));
        }
        assert(r1 =~= path1.subrange(8, 8 + l1));
        assert(r2 =~= path2.subrange(8, 8 + l2));
        assert(a1 =~= path1.subrange(9 + l1, path1.len() as int));
        assert(a2 =~= path2.subrange(9 + l2, path2.len() as int));
    }
}

} // verus!
