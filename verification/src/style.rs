//! The clusters of agents with similar styles, their labels and members.

use vstd::prelude::*;
use vstd::string::StringExecFns;
use crate::cluster::{
    assign_clusters, cluster_count, is_component_labelling, is_square, label_bound, nat_labels, rows,
};

verus! {

/// The decimal digit `d`.
pub open spec fn digit(d: nat) -> char {
    if d == 0 {
        '0'
    } else if d == 1 {
        '1'
    } else if d == 2 {
        '2'
    } else if d == 3 {
        '3'
    } else if d == 4 {
        '4'
    } else if d == 5 {
        '5'
    } else if d == 6 {
        '6'
    } else if d == 7 {
        '7'
    } else if d == 8 {
        '8'
    } else {
        '9'
    }
}

/// The decimal digits of `n`, without leading zeros.
pub open spec fn decimal(n: nat) -> Seq<char>
    decreases n,
{
    if n < 10 {
        seq![digit(n)]
    } else {
        decimal(n / 10).push(digit(n % 10))
    }
}

/// The label of cluster `id`: `cluster_` followed by `id` in decimal.
pub open spec fn label_text(id: nat) -> Seq<char> {
    seq!['c', 'l', 'u', 's', 't', 'e', 'r', '_'] + decimal(id)
}

/// The decimal digit `d` as a one-character string.
fn digit_str(d: usize) -> (s: &'static str)
    requires
        d < 10,
    ensures
        s@ == seq![digit(d as nat)],
{
    proof {
        reveal_strlit("0");
        reveal_strlit("1");
        reveal_strlit("2");
        reveal_strlit("3");
        reveal_strlit("4");
        reveal_strlit("5");
        reveal_strlit("6");
        reveal_strlit("7");
        reveal_strlit("8");
        reveal_strlit("9");
    }
    if d == 0 {
        "0"
    } else if d == 1 {
        "1"
    } else if d == 2 {
        "2"
    } else if d == 3 {
        "3"
    } else if d == 4 {
        "4"
    } else if d == 5 {
        "5"
    } else if d == 6 {
        "6"
    } else if d == 7 {
        "7"
    } else if d == 8 {
        "8"
    } else {
        "9"
    }
}

/// Appends the decimal digits of `n` to `s`.
fn push_decimal(s: &mut String, n: usize)
    ensures
        final(s)@ == old(s)@ + decimal(n as nat),
    decreases n,
{
    if n >= 10 {
        push_decimal(s, n / 10);
    }
    s.append(digit_str(n % 10));
    assert(decimal(n as nat) == if n < 10 {
        seq![digit(n as nat)]
    } else {
        decimal((n / 10) as nat).push(digit((n % 10) as nat))
    });
}

/// The label of cluster `id`: `cluster_` followed by `id` in decimal.
fn cluster_name(id: usize) -> (s: String)
    ensures
        s@ == label_text(id as nat),
{
    let mut s = <String as StringExecFns>::from_str("cluster_");
    proof {
        reveal_strlit("cluster_");
    }
    assert(s@ =~= seq!['c', 'l', 'u', 's', 't', 'e', 'r', '_']);
    push_decimal(&mut s, id);
    s
}

proof fn lemma_decimal_len(n: nat)
    ensures
        decimal(n).len() >= 1,
        n >= 10 ==> decimal(n).len() >= 2,
    decreases n,
{
    if n >= 10 {
        lemma_decimal_len(n / 10);
    }
}

proof fn lemma_decimal_injective(a: nat, b: nat)
    requires
        decimal(a) == decimal(b),
    ensures
        a == b,
    decreases a,
{
    lemma_decimal_len(a);
    lemma_decimal_len(b);
    if a < 10 && b < 10 {
        assert(decimal(a)[0] == digit(a));
        assert(decimal(b)[0] == digit(b));
    } else if a >= 10 && b >= 10 {
        assert(decimal(a).last() == digit(a % 10));
        assert(decimal(b).last() == digit(b % 10));
        assert(decimal(a).drop_last() =~= decimal(a / 10));
        assert(decimal(b).drop_last() =~= decimal(b / 10));
        lemma_decimal_injective(a / 10, b / 10);
    }
}

/// Different clusters have different labels.
pub proof fn law_labels_are_distinct(a: nat, b: nat)
    requires
        label_text(a) == label_text(b),
    ensures
        a == b,
{
    let p = seq!['c', 'l', 'u', 's', 't', 'e', 'r', '_'];
    assert((p + decimal(a)).skip(8) =~= decimal(a));
    assert((p + decimal(b)).skip(8) =~= decimal(b));
    lemma_decimal_injective(a, b);
}

/// The characters of each string.
pub open spec fn strings(v: Seq<String>) -> Seq<Seq<char>> {
    v.map_values(|s: String| s@)
}

/// The characters of each string slice.
pub open spec fn strs(v: Seq<&str>) -> Seq<Seq<char>> {
    v.map_values(|s: &str| s@)
}

/// The agents among the first `k` with label `c`, in order.
pub open spec fn members_upto(ag: Seq<Seq<char>>, lab: Seq<nat>, c: nat, k: int) -> Seq<Seq<char>>
    decreases k,
{
    if k <= 0 {
        seq![]
    } else if lab[k - 1] == c {
        members_upto(ag, lab, c, k - 1).push(ag[k - 1])
    } else {
        members_upto(ag, lab, c, k - 1)
    }
}

/// The agents with label `c`, in order.
pub open spec fn members_of(ag: Seq<Seq<char>>, lab: Seq<nat>, c: nat) -> Seq<Seq<char>> {
    members_upto(ag, lab, c, ag.len() as int)
}

/// The smallest label held by an occurrence of agent `a` among the first `k`.
pub open spec fn min_label_upto(ag: Seq<Seq<char>>, lab: Seq<nat>, a: Seq<char>, k: int) -> Option<
    nat,
>
    decreases k,
{
    if k <= 0 {
        None
    } else {
        let rest = min_label_upto(ag, lab, a, k - 1);
        if ag[k - 1] == a {
            match rest {
                None => Some(lab[k - 1]),
                Some(c) => Some(
                    if lab[k - 1] < c {
                        lab[k - 1]
                    } else {
                        c
                    },
                ),
            }
        } else {
            rest
        }
    }
}

/// The cluster of agent `a`: the smallest label of its occurrences.
pub open spec fn cluster_of(ag: Seq<Seq<char>>, lab: Seq<nat>, a: Seq<char>) -> Option<nat> {
    min_label_upto(ag, lab, a, ag.len() as int)
}

/// Agents grouped into clusters by output style. Its view is the agents in
/// the order they were given and the cluster label of each.
pub struct StyleCluster {
    agents: Vec<String>,
    labels: Vec<usize>,
    names: Vec<String>,
}

impl View for StyleCluster {
    type V = (Seq<Seq<char>>, Seq<nat>);

    closed spec fn view(&self) -> (Seq<Seq<char>>, Seq<nat>) {
        (strings(self.agents@), nat_labels(self.labels@))
    }
}

impl StyleCluster {
    #[verifier::type_invariant]
    closed spec fn well_formed(self) -> bool {
        &&& self.agents@.len() == self.labels@.len()
        &&& self.names@.len() == label_bound(nat_labels(self.labels@))
        &&& forall|c: int| 0 <= c < self.names@.len() ==> #[trigger] self.names@[c]@ == label_text(c as nat)
    }

    /// The number of clusters.
    pub open spec fn count(&self) -> nat {
        label_bound(self@.1)
    }

    /// A clusterer with no clusters.
    pub fn new() -> (r: Self)
        ensures
            r@.0.len() == 0,
            r@.1.len() == 0,
    {
        let r = StyleCluster { agents: Vec::new(), labels: Vec::new(), names: Vec::new() };
        assert(nat_labels(r.labels@) =~= seq![]);
        assert(strings(r.agents@) =~= seq![]);
        r
    }

    /// Groups the agents `agent_ids` into clusters, replacing the clusters
    /// held before. `close[a][b]` tells whether the profiles of agents `a`
    /// and `b` lie within the distance threshold.
    pub fn fit(&mut self, agent_ids: &[&str], close: &Vec<Vec<bool>>)
        requires
            agent_ids@.len() == close@.len(),
            is_square(close@),
        ensures
            final(self)@.0 == strs(agent_ids@),
            is_component_labelling(rows(close@), close@.len() as int, final(self)@.1),
    {
        let (labels, count) = assign_clusters(close);
        let mut agents: Vec<String> = Vec::new();
        let mut i: usize = 0;
        while i < agent_ids.len()
            invariant
                i <= agent_ids@.len(),
                agents@.len() == i,
                forall|k: int| 0 <= k < i ==> #[trigger] agents@[k]@ == agent_ids@[k]@,
            decreases agent_ids@.len() - i,
        {
            agents.push(agent_ids[i].to_owned());
            i = i + 1;
        }
        let mut names: Vec<String> = Vec::new();
        let mut c: usize = 0;
        while c < count
            invariant
                c <= count,
                names@.len() == c,
                forall|k: int| 0 <= k < c ==> #[trigger] names@[k]@ == label_text(k as nat),
            decreases count - c,
        {
            names.push(cluster_name(c));
            c = c + 1;
        }
        assert(strings(agents@) =~= strs(agent_ids@));
        *self = StyleCluster { agents, labels, names };
    }

    /// The number of clusters.
    pub fn len(&self) -> (r: usize)
        ensures
            r == self.count(),
    {
        proof {
            use_type_invariant(self);
        }
        self.names.len()
    }

    /// Whether there are no clusters.
    pub fn is_empty(&self) -> (r: bool)
        ensures
            r == (self.count() == 0),
    {
        proof {
            use_type_invariant(self);
        }
        self.names.len() == 0
    }

    /// The labels of all clusters, in the order the clusters were formed.
    pub fn cluster_labels(&self) -> (r: Vec<&str>)
        ensures
            r@.len() == self.count(),
            forall|c: int| 0 <= c < r@.len() ==> #[trigger] r@[c]@ == label_text(c as nat),
    {
        proof {
            use_type_invariant(self);
        }
        let mut r: Vec<&str> = Vec::new();
        let mut c: usize = 0;
        while c < self.names.len()
            invariant
                c <= self.names@.len(),
                r@.len() == c,
                forall|k: int| 0 <= k < self.names@.len() ==> #[trigger] self.names@[k]@ == label_text(k as nat),
                forall|k: int| 0 <= k < c ==> #[trigger] r@[k]@ == label_text(k as nat),
            decreases self.names@.len() - c,
        {
            r.push(self.names[c].as_str());
            c = c + 1;
        }
        r
    }

    /// The cluster whose label is `label`, if any.
    fn cluster_named(&self, label: &str) -> (r: Option<usize>)
        ensures
            r matches Some(c) ==> c < self.count() && label_text(c as nat) == label@,
            r is None ==> forall|c: nat| c < self.count() ==> label_text(c) != label@,
    {
        proof {
            use_type_invariant(self);
        }
        let wanted = label.to_owned();
        let mut c: usize = 0;
        while c < self.names.len()
            invariant
                c <= self.names@.len(),
                wanted@ == label@,
                self.names@.len() == self.count(),
                forall|k: int| 0 <= k < self.names@.len() ==> #[trigger] self.names@[k]@ == label_text(k as nat),
                forall|k: nat| k < c ==> label_text(k) != label@,
            decreases self.names@.len() - c,
        {
            if self.names[c] == wanted {
                assert(self.names@[c as int]@ == label_text(c as nat));
                return Some(c);
            }
            assert(self.names@[c as int]@ == label_text(c as nat));
            c = c + 1;
        }
        None
    }

    /// The agents in the cluster labelled `label`, in the order they were
    /// given; none when no cluster has that label.
    pub fn members(&self, label: &str) -> (r: Vec<&str>)
        ensures
            forall|c: nat|
                c < self.count() && label_text(c) == label@ ==> strs(r@) == members_of(
                    self@.0,
                    self@.1,
                    c,
                ),
            (forall|c: nat| c < self.count() ==> label_text(c) != label@) ==> r@.len() == 0,
    {
        proof {
            use_type_invariant(self);
        }
        let mut r: Vec<&str> = Vec::new();
        match self.cluster_named(label) {
            None => r,
            Some(c) => {
                let ghost ag = self@.0;
                let ghost lab = self@.1;
                let mut i: usize = 0;
                while i < self.agents.len()
                    invariant
                        i <= self.agents@.len(),
                        self.agents@.len() == self.labels@.len(),
                        ag == strings(self.agents@),
                        lab == nat_labels(self.labels@),
                        strs(r@) == members_upto(ag, lab, c as nat, i as int),
                    decreases self.agents@.len() - i,
                {
                    let ghost before = r@;
                    if self.labels[i] == c {
                        r.push(self.agents[i].as_str());
                        assert(strs(r@) =~= strs(before).push(ag[i as int]));
                    }
                    i = i + 1;
                }
                proof {
                    assert forall|d: nat| d < self.count() && label_text(d) == label@ implies d == c by {
                        law_labels_are_distinct(d, c as nat);
                    }
                }
                r
            },
        }
    }

    /// The label of the cluster of `agent_id` (the earliest cluster, should
    /// the agent have been given more than once), if it was given at all.
    pub fn find_cluster(&self, agent_id: &str) -> (r: Option<&str>)
        ensures
            r is None <==> cluster_of(self@.0, self@.1, agent_id@) is None,
            r matches Some(s) ==> cluster_of(self@.0, self@.1, agent_id@) matches Some(c)
                && s@ == label_text(c),
    {
        proof {
            use_type_invariant(self);
        }
        let ghost ag = self@.0;
        let ghost lab = self@.1;
        let wanted = agent_id.to_owned();
        let mut best: Option<usize> = None;
        let mut i: usize = 0;
        while i < self.agents.len()
            invariant
                i <= self.agents@.len(),
                self.agents@.len() == self.labels@.len(),
                ag == strings(self.agents@),
                lab == nat_labels(self.labels@),
                wanted@ == agent_id@,
                best matches Some(b) ==> min_label_upto(ag, lab, agent_id@, i as int) == Some(b as nat),
                best is None ==> min_label_upto(ag, lab, agent_id@, i as int) is None,
            decreases self.agents@.len() - i,
        {
            if self.agents[i] == wanted {
                let l = self.labels[i];
                best = match best {
                    None => Some(l),
                    Some(b) => Some(if l < b { l } else { b }),
                };
            }
            i = i + 1;
        }
        match best {
            None => None,
            Some(b) => {
                proof {
                    lemma_min_label_bounded(ag, lab, agent_id@, ag.len() as int);
                }
                Some(self.names[b].as_str())
            },
        }
    }
}

proof fn lemma_min_label_bounded(ag: Seq<Seq<char>>, lab: Seq<nat>, a: Seq<char>, k: int)
    requires
        0 <= k <= lab.len(),
    ensures
        min_label_upto(ag, lab, a, k) matches Some(c) ==> c < label_bound(lab),
    decreases k,
{
    if k > 0 {
        lemma_min_label_bounded(ag, lab, a, k - 1);
        crate::cluster::lemma_bound_above(lab);
    }
}

} // verus!

verus! {

proof fn lemma_member_upto(ag: Seq<Seq<char>>, lab: Seq<nat>, i: int, k: int)
    requires
        0 <= i < k <= lab.len(),
        k <= ag.len(),
    ensures
        members_upto(ag, lab, lab[i], k).contains(ag[i]),
    decreases k,
{
    let c = lab[i];
    if i < k - 1 {
        lemma_member_upto(ag, lab, i, k - 1);
        if lab[k - 1] == c {
            let p = members_upto(ag, lab, c, k - 1);
            let t = choose|t: int| 0 <= t < p.len() && p[t] == ag[i];
            assert(p.push(ag[k - 1])[t] == ag[i]);
        }
    } else {
        let p = members_upto(ag, lab, c, k - 1);
        assert(p.push(ag[i])[p.len() as int] == ag[i]);
    }
}

proof fn lemma_min_label_upto(ag: Seq<Seq<char>>, lab: Seq<nat>, a: Seq<char>, k: int)
    requires
        0 <= k <= ag.len(),
        k <= lab.len(),
    ensures
        min_label_upto(ag, lab, a, k) is Some <==> exists|i: int| 0 <= i < k && ag[i] == a,
        min_label_upto(ag, lab, a, k) matches Some(c) ==> exists|i: int|
            0 <= i < k && ag[i] == a && lab[i] == c,
    decreases k,
{
    if k > 0 {
        lemma_min_label_upto(ag, lab, a, k - 1);
    }
}

/// Every agent that was given is found in a cluster, and the cluster it is
/// found in lists it among its members: `members(find_cluster(a))` holds `a`.
pub proof fn law_found_agent_is_member(ag: Seq<Seq<char>>, lab: Seq<nat>, a: Seq<char>)
    requires
        ag.len() == lab.len(),
    ensures
        cluster_of(ag, lab, a) is Some <==> ag.contains(a),
        cluster_of(ag, lab, a) matches Some(c) ==> members_of(ag, lab, c).contains(a),
{
    lemma_min_label_upto(ag, lab, a, ag.len() as int);
    if cluster_of(ag, lab, a) is Some {
        let i = choose|i: int| 0 <= i < ag.len() && ag[i] == a && lab[i] == cluster_of(ag, lab, a)->0;
        lemma_member_upto(ag, lab, i, ag.len() as int);
    }
}

/// After `fit`, each cluster counted by `len` has at least one member.
pub proof fn law_every_cluster_has_members(
    ag: Seq<Seq<char>>,
    m: Seq<Seq<bool>>,
    lab: Seq<nat>,
    c: nat,
)
    requires
        is_component_labelling(m, ag.len() as int, lab),
        c < cluster_count(lab),
    ensures
        members_of(ag, lab, c).len() > 0,
{
    let n = ag.len() as int;
    crate::cluster::law_clusters_are_labelled_densely(m, n, lab);
    assert(crate::cluster::has_label(lab, n, c));
    let i = choose|i: int| 0 <= i < n && lab[i] == c;
    lemma_member_upto(ag, lab, i, n);
}

} // verus!

verus! {

/// The number written by decimal digits, most significant first.
pub open spec fn digits_value(s: Seq<char>) -> int
    decreases s.len(),
{
    if s.len() == 0 {
        0
    } else {
        digits_value(s.drop_last()) * 10 + (s.last() as int - 48)
    }
}

/// The digits of a cluster's label are ASCII decimal digits without a
/// leading zero, and read back as the cluster's number.
pub proof fn law_label_digits_spell_the_number(n: nat)
    ensures
        forall|i: int| 0 <= i < decimal(n).len() ==> 48 <= #[trigger] (decimal(n)[i] as int) <= 57,
        digits_value(decimal(n)) == n,
        decimal(n)[0] == '0' ==> n == 0,
        label_text(n).skip(8) == decimal(n),
    decreases n,
{
    let p = seq!['c', 'l', 'u', 's', 't', 'e', 'r', '_'];
    assert((p + decimal(n)).skip(8) =~= decimal(n));
    if n >= 10 {
        law_label_digits_spell_the_number(n / 10);
        let d = decimal(n / 10);
        let s = decimal(n);
        assert(s =~= d.push(digit(n % 10)));
        assert(s.drop_last() =~= d);
        assert forall|i: int| 0 <= i < s.len() implies 48 <= #[trigger] (s[i] as int) <= 57 by {
            if i < d.len() {
                assert(s[i] == d[i]);
            }
        }
        assert(s[0] == d[0]);
        assert(digit(n % 10) as int - 48 == n % 10);
        assert(s.last() == digit(n % 10));
        assert(digits_value(s) == digits_value(d) * 10 + (s.last() as int - 48));
        assert(n == (n / 10) * 10 + n % 10);
    } else {
        assert(decimal(n).drop_last() =~= Seq::<char>::empty());
        assert(digit(n) as int - 48 == n);
        assert(digits_value(Seq::<char>::empty()) == 0);
        assert(decimal(n).last() == digit(n));
        assert(digits_value(decimal(n)) == digits_value(decimal(n).drop_last()) * 10 + (decimal(
            n,
        ).last() as int - 48));
    }
}

} // verus!
