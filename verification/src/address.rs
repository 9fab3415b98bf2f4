//! The address of an architecture: cluster, namespace and name.

use crate::text::converts_to;
use vstd::prelude::*;

verus! {

/// What a [`ResourceAddress`] stands for.
pub struct AddressView {
    pub cluster: Seq<char>,
    pub namespace: Seq<char>,
    pub name: Seq<char>,
}

/// The text of an address: its three parts with a `/` between them.
pub open spec fn dotted_form(cluster: Seq<char>, namespace: Seq<char>, name: Seq<char>) -> Seq<
    char,
> {
    cluster + seq!['/'] + namespace + seq!['/'] + name
}

impl AddressView {
    /// The text by which registries and the dependency graph know this address.
    pub open spec fn dotted(self) -> Seq<char> {
        dotted_form(self.cluster, self.namespace, self.name)
    }
}

/// The address of an architecture.
#[derive(Debug)]
pub struct ResourceAddress {
    pub cluster: String,
    pub namespace: String,
    pub name: String,
}

impl View for ResourceAddress {
    type V = AddressView;

    open spec fn view(&self) -> AddressView {
        AddressView { cluster: self.cluster@, namespace: self.namespace@, name: self.name@ }
    }
}

impl Clone for ResourceAddress {
    fn clone(&self) -> (copy: Self)
        ensures
            copy == *self,
    {
        ResourceAddress {
            cluster: self.cluster.clone(),
            namespace: self.namespace.clone(),
            name: self.name.clone(),
        }
    }
}

impl PartialEq for ResourceAddress {
    fn eq(&self, other: &Self) -> (same: bool) {
        self.cluster == other.cluster && self.namespace == other.namespace && self.name
            == other.name
    }
}

impl vstd::std_specs::cmp::PartialEqSpecImpl for ResourceAddress {
    open spec fn obeys_eq_spec() -> bool {
        true
    }

    open spec fn eq_spec(&self, other: &Self) -> bool {
        self@ == other@
    }
}

impl Eq for ResourceAddress {

}

/// Calls `lava_outcome_chain::ResourceAddress::dotted` on the address with
/// these parts. The claim is that it joins cluster, namespace and name, in this
/// order, with a `/` between them.
#[verifier::external_body]
fn dotted_text(cluster: &str, namespace: &str, name: &str) -> (text: String)
    ensures
        text@ == dotted_form(cluster@, namespace@, name@),
{
    lava_outcome_chain::ResourceAddress::new(cluster, namespace, name).dotted()
}

impl ResourceAddress {
    /// The address with these parts.
    #[must_use]
    pub fn new<C: Into<String>, S: Into<String>, N: Into<String>>(
        cluster: C,
        namespace: S,
        name: N,
    ) -> (address: Self)
        ensures
            converts_to(cluster, address@.cluster),
            converts_to(namespace, address@.namespace),
            converts_to(name, address@.name),
            converts_to(cluster, address.cluster@),
            converts_to(namespace, address.namespace@),
            converts_to(name, address.name@),
    {
        ResourceAddress { cluster: cluster.into(), namespace: namespace.into(), name: name.into() }
    }

    /// The dotted form `<cluster>/<namespace>/<name>`.
    #[must_use]
    pub fn dotted(&self) -> (text: String)
        ensures
            text@ == self@.dotted(),
            text@ == self.cluster@ + seq!['/'] + self.namespace@ + seq!['/'] + self.name@,
    {
        dotted_text(self.cluster.as_str(), self.namespace.as_str(), self.name.as_str())
    }
}

/// `text` has no `/` in it.
pub open spec fn slash_free(text: Seq<char>) -> bool {
    !text.contains('/')
}

/// The cluster and the namespace hold no `/`, so that the dotted form can be taken apart again.
pub open spec fn separable(address: AddressView) -> bool {
    slash_free(address.cluster) && slash_free(address.namespace)
}

proof fn lemma_split_at_slash(a: Seq<char>, x: Seq<char>, b: Seq<char>, y: Seq<char>)
    requires
        slash_free(a),
        slash_free(b),
        a + seq!['/'] + x == b + seq!['/'] + y,
    ensures
        a == b,
        x == y,
{
    let left = a + seq!['/'] + x;
    let right = b + seq!['/'] + y;
    assert(left[a.len() as int] == '/');
    assert(right[b.len() as int] == '/');
    if a.len() < b.len() {
        assert(right[a.len() as int] == b[a.len() as int]);
        assert(b.contains('/'));
    }
    if b.len() < a.len() {
        assert(left[b.len() as int] == a[b.len() as int]);
        assert(a.contains('/'));
    }
    assert forall|i: int| 0 <= i < a.len() implies a[i] == b[i] by {
        assert(left[i] == a[i]);
        assert(right[i] == b[i]);
    }
    assert(a =~= b);
    assert(left.len() == a.len() + 1 + x.len());
    assert(right.len() == b.len() + 1 + y.len());
    assert forall|i: int| 0 <= i < x.len() implies x[i] == y[i] by {
        assert(left[a.len() + 1 + i] == x[i]);
        assert(right[b.len() + 1 + i] == y[i]);
    }
    assert(x =~= y);
}

/// Different addresses have different dotted forms, as long as neither has a
/// `/` in its cluster or its namespace.
pub proof fn law_dotted_tells_addresses_apart(a: AddressView, b: AddressView)
    requires
        separable(a),
        separable(b),
    ensures
        a.dotted() == b.dotted() <==> a == b,
{
    if a.dotted() == b.dotted() {
        let rest_a = a.namespace + seq!['/'] + a.name;
        let rest_b = b.namespace + seq!['/'] + b.name;
        assert(a.dotted() =~= a.cluster + seq!['/'] + rest_a);
        assert(b.dotted() =~= b.cluster + seq!['/'] + rest_b);
        lemma_split_at_slash(a.cluster, rest_a, b.cluster, rest_b);
        lemma_split_at_slash(a.namespace, a.name, b.namespace, b.name);
    }
}

/// The dotted form is as long as the parts and two slashes, and has the parts
/// in their order with a slash after the cluster and one after the namespace.
pub proof fn law_dotted_holds_the_parts(a: AddressView)
    ensures
        a.dotted().len() == a.cluster.len() + a.namespace.len() + a.name.len() + 2,
        a.dotted().take(a.cluster.len() as int) == a.cluster,
        a.dotted()[a.cluster.len() as int] == '/',
        a.dotted().subrange(
            (a.cluster.len() + 1) as int,
            (a.cluster.len() + 1 + a.namespace.len()) as int,
        ) == a.namespace,
        a.dotted()[(a.cluster.len() + 1 + a.namespace.len()) as int] == '/',
        a.dotted().skip((a.cluster.len() + 1 + a.namespace.len() + 1) as int) == a.name,
{
    let text = a.dotted();
    assert(text.take(a.cluster.len() as int) =~= a.cluster);
    assert(text.subrange(
        (a.cluster.len() + 1) as int,
        (a.cluster.len() + 1 + a.namespace.len()) as int,
    ) =~= a.namespace);
    assert(text.skip((a.cluster.len() + 1 + a.namespace.len() + 1) as int) =~= a.name);
}

/// Addresses are the same exactly when all their parts hold the same text.
pub proof fn law_same_address_same_parts(a: ResourceAddress, b: ResourceAddress)
    ensures
        a@.cluster == a.cluster@,
        a@.namespace == a.namespace@,
        a@.name == a.name@,
        vstd::std_specs::cmp::PartialEqSpec::eq_spec(&a, &b) <==> a.cluster@ == b.cluster@
            && a.namespace@ == b.namespace@ && a.name@ == b.name@,
{
}

} // verus!
