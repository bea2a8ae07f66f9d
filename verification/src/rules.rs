//! Firewall rules: one per combination of interfaces.
use crate::config::Direction;
use crate::zones::Chain;
use crate::zones::ResolvedRule;
use vstd::prelude::*;

verus! {

/// Which address of a packet a rule looks up.
#[derive(Debug, Clone, Copy, PartialEq, Eq, Structural)]
pub enum AddressField {
    Source,
    Destination,
}

/// A rule for at most one ingress and one egress interface.
#[derive(Debug, Clone, PartialEq, Eq)]
pub struct RenderedRule {
    pub chain: Chain,
    pub direction: Direction,
    pub ingress: Option<String>,
    pub egress: Option<String>,
    pub address: AddressField,
}

/// The address that a blocklist applies to.
pub open spec fn address_field(direction: Direction) -> AddressField {
    match direction {
        Direction::Inbound => AddressField::Source,
        Direction::Outbound => AddressField::Destination,
    }
}

/// The alternatives for one side of a rule: each interface, or no constraint where there is none.
pub open spec fn alternatives(interfaces: Seq<String>) -> Seq<Option<String>> {
    if interfaces.len() == 0 {
        seq![None]
    } else {
        interfaces.map_values(|name: String| Some(name))
    }
}

/// The rule for one combination of interfaces.
pub open spec fn combined(
    rule: ResolvedRule,
    ingress: Option<String>,
    egress: Option<String>,
) -> RenderedRule {
    RenderedRule {
        chain: rule.chain,
        direction: rule.blocklist,
        ingress,
        egress,
        address: address_field(rule.blocklist),
    }
}

/// The rules for one ingress interface: one per egress alternative.
pub open spec fn row(rule: ResolvedRule, ingress: Option<String>, egress: Seq<Option<String>>) -> Seq<
    RenderedRule,
> {
    egress.map_values(|e: Option<String>| combined(rule, ingress, e))
}

/// The rules for the ingress interfaces, in their order.
pub open spec fn table(
    rule: ResolvedRule,
    ingress: Seq<Option<String>>,
    egress: Seq<Option<String>>,
) -> Seq<RenderedRule>
    decreases ingress.len(),
{
    if ingress.len() == 0 {
        Seq::empty()
    } else {
        table(rule, ingress.drop_last(), egress) + row(rule, ingress.last(), egress)
    }
}

/// The rules of one mapping.
pub open spec fn expanded(rule: ResolvedRule) -> Seq<RenderedRule> {
    table(rule, alternatives(rule.ingress@), alternatives(rule.egress@))
}

/// The rules of all mappings, in their order.
pub open spec fn rendered(rules: Seq<ResolvedRule>) -> Seq<RenderedRule>
    decreases rules.len(),
{
    if rules.len() == 0 {
        Seq::empty()
    } else {
        rendered(rules.drop_last()) + expanded(rules.last())
    }
}

/// A mapping becomes the cross product of its ingress and egress alternatives: every pair gets
/// exactly one rule, at the place that the positions of its parts give.
pub proof fn law_mapping_is_cross_product(rule: ResolvedRule, i: int, j: int)
    requires
        0 <= i < alternatives(rule.ingress@).len(),
        0 <= j < alternatives(rule.egress@).len(),
    ensures
        expanded(rule).len() == alternatives(rule.ingress@).len() * alternatives(
            rule.egress@,
        ).len(),
        0 <= i * alternatives(rule.egress@).len() + j < expanded(rule).len(),
        expanded(rule)[i * alternatives(rule.egress@).len() + j] == combined(
            rule,
            alternatives(rule.ingress@)[i],
            alternatives(rule.egress@)[j],
        ),
{
    lemma_table(rule, alternatives(rule.ingress@), alternatives(rule.egress@), i, j);
}

proof fn lemma_table(
    rule: ResolvedRule,
    ingress: Seq<Option<String>>,
    egress: Seq<Option<String>>,
    i: int,
    j: int,
)
    ensures
        table(rule, ingress, egress).len() == ingress.len() * egress.len(),
        0 <= i < ingress.len() && 0 <= j < egress.len() ==> 0 <= i * egress.len() + j
            < ingress.len() * egress.len() && table(rule, ingress, egress)[i * egress.len() + j]
            == combined(rule, ingress[i], egress[j]),
    decreases ingress.len(),
{
    let (n, m) = (ingress.len() as int, egress.len() as int);
    if n > 0 {
        lemma_table(rule, ingress.drop_last(), egress, i, j);
        assert((n - 1) * m + m == n * m) by (nonlinear_arith);
        if 0 <= i < n - 1 && 0 <= j < m {
            assert(i * m + j < (n - 1) * m);
        } else if i == n - 1 && 0 <= j < m {
            let all = table(rule, ingress, egress);
            assert(all[(n - 1) * m + j] == row(rule, ingress.last(), egress)[j]);
            assert(0 <= (n - 1) * m) by (nonlinear_arith)
                requires
                    n >= 1,
                    m >= 0,
            ;
        }
    } else {
        assert(n * m == 0) by (nonlinear_arith)
            requires
                n == 0,
        ;
    }
}

/// The alternatives as a vector.
fn alternatives_of(interfaces: &Vec<String>) -> (r: Vec<Option<String>>)
    ensures
        r@ == alternatives(interfaces@),
{
    let mut r: Vec<Option<String>> = Vec::new();
    if interfaces.len() == 0 {
        r.push(None);
        assert(r@ =~= alternatives(interfaces@));
        return r;
    }
    let mut i: usize = 0;
    while i < interfaces.len()
        invariant
            i <= interfaces@.len(),
            interfaces@.len() > 0,
            r@ == alternatives(interfaces@).take(i as int),
        decreases interfaces@.len() - i,
    {
        r.push(Some(interfaces[i].clone()));
        proof {
            let all = alternatives(interfaces@);
            assert(all.take(i + 1) =~= all.take(i as int).push(all[i as int]));
        }
        i = i + 1;
    }
    proof {
        assert(alternatives(interfaces@).take(i as int) =~= alternatives(interfaces@));
    }
    r
}

fn copy_name(name: &Option<String>) -> (r: Option<String>)
    ensures
        r == *name,
{
    match name {
        Some(text) => Some(text.clone()),
        None => None,
    }
}

/// Expand zone alternatives to concrete rules. nftables expressions inside one rule are ANDed,
/// while separate rules provide the intended OR semantics for interfaces in a zone.
pub fn render(rules: &Vec<ResolvedRule>) -> (out: Vec<RenderedRule>)
    ensures
        out@ == rendered(rules@),
{
    let mut out: Vec<RenderedRule> = Vec::new();
    let mut k: usize = 0;
    assert(rules@.take(0) =~= Seq::empty());
    while k < rules.len()
        invariant
            k <= rules@.len(),
            out@ == rendered(rules@.take(k as int)),
        decreases rules@.len() - k,
    {
        let rule = &rules[k];
        let ingress = alternatives_of(&rule.ingress);
        let egress = alternatives_of(&rule.egress);
        let address = match rule.blocklist {
            Direction::Inbound => AddressField::Source,
            Direction::Outbound => AddressField::Destination,
        };
        let ghost before = out@;
        let mut i: usize = 0;
        proof {
            assert(ingress@.take(0) =~= Seq::empty());
            assert(before + table(*rule, ingress@.take(0), egress@) =~= before);
        }
        while i < ingress.len()
            invariant
                i <= ingress@.len(),
                address == address_field(rule.blocklist),
                out@ == before + table(*rule, ingress@.take(i as int), egress@),
            decreases ingress@.len() - i,
        {
            let ghost rows = table(*rule, ingress@.take(i as int), egress@);
            let ghost this_row = row(*rule, ingress@[i as int], egress@);
            let mut j: usize = 0;
            proof {
                assert(before + rows + this_row.take(0) =~= before + rows);
            }
            while j < egress.len()
                invariant
                    i < ingress@.len(),
                    j <= egress@.len(),
                    address == address_field(rule.blocklist),
                    this_row == row(*rule, ingress@[i as int], egress@),
                    out@ == before + rows + this_row.take(j as int),
                decreases egress@.len() - j,
            {
                out.push(
                    RenderedRule {
                        chain: rule.chain,
                        direction: rule.blocklist,
                        ingress: copy_name(&ingress[i]),
                        egress: copy_name(&egress[j]),
                        address,
                    },
                );
                proof {
                    assert(before + rows + this_row.take(j + 1) =~= (before + rows
                        + this_row.take(j as int)).push(this_row[j as int]));
                }
                j = j + 1;
            }
            proof {
                assert(this_row.take(j as int) =~= this_row);
                let longer = ingress@.take(i + 1);
                assert(longer.drop_last() =~= ingress@.take(i as int));
                assert(before + rows + this_row =~= before + (rows + this_row));
            }
            i = i + 1;
        }
        proof {
            assert(ingress@.take(i as int) =~= ingress@);
            assert(rules@.take(k + 1).drop_last() =~= rules@.take(k as int));
        }
        k = k + 1;
    }
    proof {
        assert(rules@.take(k as int) =~= rules@);
    }
    out
}

/// The interface is on one of the sides of the mapping.
pub open spec fn on_either_side(rule: ResolvedRule, interface: Seq<char>) -> bool {
    crate::text::has_text(rule.ingress@, interface) || crate::text::has_text(
        rule.egress@,
        interface,
    )
}

proof fn lemma_alternative_names(interfaces: Seq<String>, interface: Seq<char>)
    ensures
        alternatives(interfaces).len() > 0,
        crate::text::has_text(interfaces, interface) <==> exists|i: int|
            0 <= i < alternatives(interfaces).len() && (#[trigger] alternatives(interfaces)[i])
                is Some && alternatives(interfaces)[i]->0@ == interface,
{
    let all = alternatives(interfaces);
    if crate::text::has_text(interfaces, interface) {
        let i = choose|i: int|
            0 <= i < interfaces.len() && (#[trigger] interfaces[i])@ == interface;
        assert(all[i] == Some(interfaces[i]));
    }
    if exists|i: int|
        0 <= i < all.len() && (#[trigger] all[i]) is Some && all[i]->0@ == interface {
        let i = choose|i: int|
            0 <= i < all.len() && (#[trigger] all[i]) is Some && all[i]->0@ == interface;
        assert(interfaces[i]@ == interface);
    }
}

/// The place of every rule of a table is given by the positions of its parts.
proof fn lemma_table_places(
    rule: ResolvedRule,
    ingress: Seq<Option<String>>,
    egress: Seq<Option<String>>,
    n: int,
) -> (place: (int, int))
    requires
        0 <= n < table(rule, ingress, egress).len(),
    ensures
        0 <= place.0 < ingress.len(),
        0 <= place.1 < egress.len(),
        table(rule, ingress, egress)[n] == combined(rule, ingress[place.0], egress[place.1]),
    decreases ingress.len(),
{
    let before = table(rule, ingress.drop_last(), egress);
    if n < before.len() {
        lemma_table_places(rule, ingress.drop_last(), egress, n)
    } else {
        (ingress.len() - 1, n - before.len())
    }
}

/// The rules of a mapping name exactly the interfaces of its two sides.
proof fn lemma_expanded_names(rule: ResolvedRule, interface: Seq<char>)
    ensures
        on_either_side(rule, interface) <==> exists|n: int|
            0 <= n < expanded(rule).len() && names(#[trigger] expanded(rule)[n], interface),
{
    let (ins, outs) = (alternatives(rule.ingress@), alternatives(rule.egress@));
    let all = expanded(rule);
    lemma_alternative_names(rule.ingress@, interface);
    lemma_alternative_names(rule.egress@, interface);
    if crate::text::has_text(rule.ingress@, interface) {
        let i = choose|i: int|
            0 <= i < ins.len() && (#[trigger] ins[i]) is Some && ins[i]->0@ == interface;
        lemma_table(rule, ins, outs, i, 0);
        assert(names(all[i * outs.len() + 0], interface));
    }
    if crate::text::has_text(rule.egress@, interface) {
        let j = choose|j: int|
            0 <= j < outs.len() && (#[trigger] outs[j]) is Some && outs[j]->0@ == interface;
        lemma_table(rule, ins, outs, 0, j);
        assert(names(all[0 * outs.len() + j], interface));
    }
    if exists|n: int| 0 <= n < all.len() && names(#[trigger] all[n], interface) {
        let n = choose|n: int| 0 <= n < all.len() && names(#[trigger] all[n], interface);
        let (i, j) = lemma_table_places(rule, ins, outs, n);
        if ins[i] is Some && ins[i]->0@ == interface {
            assert(crate::text::has_text(rule.ingress@, interface));
        } else {
            assert(outs[j] is Some && outs[j]->0@ == interface);
        }
    }
}

/// The rule tests for the interface on one of its sides.
pub open spec fn names(rule: RenderedRule, interface: Seq<char>) -> bool {
    rule.ingress is Some && rule.ingress->0@ == interface || rule.egress is Some
        && rule.egress->0@ == interface
}

/// The rules name exactly the interfaces on the two sides of the mappings: none is left out, and
/// none is added.
pub proof fn law_rules_name_every_interface(rules: Seq<ResolvedRule>, interface: Seq<char>)
    ensures
        (exists|n: int| 0 <= n < rendered(rules).len() && names(#[trigger] rendered(rules)[n], interface))
            <==> (exists|k: int| 0 <= k < rules.len() && on_either_side(#[trigger] rules[k], interface)),
    decreases rules.len(),
{
    let all = rendered(rules);
    if rules.len() > 0 {
        let before = rules.drop_last();
        let (head, tail) = (rendered(before), expanded(rules.last()));
        law_rules_name_every_interface(before, interface);
        lemma_expanded_names(rules.last(), interface);
        if exists|n: int| 0 <= n < all.len() && names(#[trigger] all[n], interface) {
            let n = choose|n: int| 0 <= n < all.len() && names(#[trigger] all[n], interface);
            if n < head.len() {
                assert(names(head[n], interface));
                let k = choose|k: int|
                    0 <= k < before.len() && on_either_side(#[trigger] before[k], interface);
                assert(on_either_side(rules[k], interface));
            } else {
                assert(names(tail[n - head.len()], interface));
                assert(on_either_side(rules[rules.len() - 1], interface));
            }
        }
        if exists|k: int| 0 <= k < rules.len() && on_either_side(#[trigger] rules[k], interface) {
            let k = choose|k: int|
                0 <= k < rules.len() && on_either_side(#[trigger] rules[k], interface);
            if k < before.len() {
                assert(on_either_side(before[k], interface));
                let n = choose|n: int| 0 <= n < head.len() && names(#[trigger] head[n], interface);
                assert(names(all[n], interface));
            } else {
                let n = choose|n: int| 0 <= n < tail.len() && names(#[trigger] tail[n], interface);
                assert(all[head.len() + n] == tail[n]);
                assert(names(all[head.len() + n], interface));
            }
        }
    }
}

/// The rules are for exactly the lists that the mappings name: every mapping has a rule.
pub proof fn law_every_mapping_has_a_rule(rules: Seq<ResolvedRule>, direction: Direction)
    ensures
        (exists|n: int| 0 <= n < rendered(rules).len() && (#[trigger] rendered(rules)[n]).direction == direction)
            <==> (exists|k: int| 0 <= k < rules.len() && (#[trigger] rules[k]).blocklist == direction),
    decreases rules.len(),
{
    let all = rendered(rules);
    if rules.len() > 0 {
        let before = rules.drop_last();
        let last = rules.last();
        let (head, tail) = (rendered(before), expanded(last));
        let (ins, outs) = (alternatives(last.ingress@), alternatives(last.egress@));
        law_every_mapping_has_a_rule(before, direction);
        lemma_alternative_names(last.ingress@, Seq::empty());
        lemma_alternative_names(last.egress@, Seq::empty());
        lemma_table(last, ins, outs, 0, 0);
        assert(0 * outs.len() + 0 == 0) by (nonlinear_arith);
        assert(tail[0].direction == last.blocklist);
        if exists|n: int| 0 <= n < all.len() && (#[trigger] all[n]).direction == direction {
            let n = choose|n: int| 0 <= n < all.len() && (#[trigger] all[n]).direction == direction;
            if n < head.len() {
                assert(head[n].direction == direction);
                let k = choose|k: int|
                    0 <= k < before.len() && (#[trigger] before[k]).blocklist == direction;
                assert(rules[k].blocklist == direction);
            } else {
                let (i, j) = lemma_table_places(last, ins, outs, n - head.len());
                assert(rules[rules.len() - 1].blocklist == direction);
            }
        }
        if exists|k: int| 0 <= k < rules.len() && (#[trigger] rules[k]).blocklist == direction {
            let k = choose|k: int|
                0 <= k < rules.len() && (#[trigger] rules[k]).blocklist == direction;
            if k < before.len() {
                assert(before[k].blocklist == direction);
                let n = choose|n: int|
                    0 <= n < head.len() && (#[trigger] head[n]).direction == direction;
                assert(all[n].direction == direction);
            } else {
                assert(all[head.len() as int] == tail[0]);
                assert(all[head.len() as int].direction == direction);
            }
        }
    }
}

/// The rules come in the order of the mappings: those of a later mapping follow those of all earlier
/// ones, and what they are does not depend on these.
pub proof fn law_rules_follow_the_mappings(rules: Seq<ResolvedRule>, rule: ResolvedRule)
    ensures
        rendered(rules.push(rule)) == rendered(rules) + rendered(seq![rule]),
        rendered(seq![rule]) == expanded(rule),
        rendered(Seq::empty()).len() == 0,
{
    assert(rules.push(rule).drop_last() =~= rules);
    let one = seq![rule];
    assert(one.drop_last() =~= Seq::empty());
    reveal_with_fuel(rendered, 2);
    assert(rendered(one) =~= expanded(rule));
}

} // verus!
