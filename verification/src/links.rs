//! The interfaces that XDP programs are attached to, and the pinned links that keep them there.
use crate::config::XdpMode;
use crate::text::decimal;
use crate::text::quoted;
use vstd::prelude::*;
use vstd::string::*;

verus! {

/// The directory of the pinned links, below the directory of the pinned maps.
pub fn links_directory() -> (r: &'static str)
    ensures
        r@ == "links"@,
{
    "links"
}

/// The names of the pinned maps, in the order in which they are removed.
pub fn map_names() -> (r: [&'static str; 5])
    ensures
        r@[0]@ == "CONTROL"@,
        r@[1]@ == "IPV4_A"@,
        r@[2]@ == "IPV4_B"@,
        r@[3]@ == "IPV6_A"@,
        r@[4]@ == "IPV6_B"@,
{
    ["CONTROL", "IPV4_A", "IPV4_B", "IPV6_A", "IPV6_B"]
}

/// The number of a decimal digit.
pub open spec fn digit_value(c: char) -> Option<int> {
    if '0' <= c <= '9' {
        Some(c as int - 48)
    } else {
        None
    }
}

/// The number that some digits write; nothing where there is anything but digits.
pub open spec fn digits_value(text: Seq<char>) -> Option<int>
    decreases text.len(),
{
    if text.len() == 0 {
        Some(0)
    } else {
        match (digits_value(text.drop_last()), digit_value(text.last())) {
            (Some(value), Some(digit)) => Some(10 * value + digit),
            _ => None,
        }
    }
}

/// The text without a plus sign in front.
pub open spec fn unsigned(text: Seq<char>) -> Seq<char> {
    if text.len() > 0 && text[0] == '+' {
        text.drop_first()
    } else {
        text
    }
}

/// The number that a text writes in decimal: digits, at least one, with or without a plus sign,
/// that give a number in range.
pub open spec fn number(text: Seq<char>) -> Option<u32> {
    let digits = unsigned(text);
    if digits.len() == 0 {
        None
    } else {
        match digits_value(digits) {
            Some(value) => if value <= u32::MAX {
                Some(value as u32)
            } else {
                None
            },
            None => None,
        }
    }
}

proof fn lemma_prefix_value(text: Seq<char>, n: int)
    requires
        0 <= n <= text.len(),
    ensures
        digits_value(text) is Some ==> digits_value(text.take(n)) is Some && 0 <= digits_value(
            text.take(n),
        )->0 <= digits_value(text)->0,
        digits_value(text) matches Some(value) ==> value >= 0,
    decreases text.len(),
{
    if text.len() > 0 {
        if n < text.len() {
            lemma_prefix_value(text.drop_last(), n);
            assert(text.drop_last().take(n) =~= text.take(n));
        } else {
            lemma_prefix_value(text.drop_last(), n - 1);
            assert(text.take(n) =~= text);
        }
    } else {
        assert(text.take(n) =~= text);
    }
}

/// The number that a text writes in decimal.
pub fn parse_number(text: &str) -> (r: Option<u32>)
    ensures
        r == number(text@),
{
    let len: usize = text.unicode_len();
    let mut i: usize = if len > 0 && text.get_char(0) == '+' {
        1
    } else {
        0
    };
    let start: usize = i;
    let ghost digits = unsigned(text@);
    if i == len {
        return None;
    }
    let mut value: u64 = 0;
    assert(digits.take(0) =~= Seq::empty());
    assert(forall|k: int| 0 <= k < digits.len() ==> digits[k] == text@[start + k]);
    while i < len
        invariant
            start <= 1,
            start <= i <= len,
            len == text@.len(),
            digits == unsigned(text@),
            digits.len() == len - start,
            digits.len() > 0,
            forall|k: int| 0 <= k < digits.len() ==> digits[k] == text@[start + k],
            value <= u32::MAX,
            digits_value(digits.take(i - start)) == Some(value as int),
        decreases len - i,
    {
        let c: char = text.get_char(i);
        let ghost k = i - start;
        proof {
            assert(digits.take(k + 1).drop_last() =~= digits.take(k));
            assert(digits.take(k + 1).last() == c);
            lemma_prefix_value(digits, k + 1);
        }
        if c < '0' || c > '9' {
            return None;
        }
        let digit: u64 = c as u64 - 48;
        value = 10 * value + digit;
        if value > 0xffff_ffff {
            return None;
        }
        i = i + 1;
    }
    assert(digits.take(i - start) =~= digits);
    Some(value as u32)
}

proof fn lemma_decimal_value(n: nat)
    ensures
        digits_value(crate::text::decimal_digits(n)) == Some(n as int),
        crate::text::decimal_digits(n).len() > 0,
        forall|k: int|
            0 <= k < crate::text::decimal_digits(n).len() ==> '0' <= (
            #[trigger] crate::text::decimal_digits(n)[k]) <= '9',
    decreases n,
{
    let all = crate::text::decimal_digits(n);
    if n < 10 {
        assert(all.drop_last() =~= Seq::empty());
        assert(all.last() == crate::text::digit(n));
        reveal_with_fuel(digits_value, 2);
    } else {
        lemma_decimal_value(n / 10);
        assert(all.drop_last() =~= crate::text::decimal_digits(n / 10));
        assert(all.last() == crate::text::digit(n % 10));
        assert forall|k: int| 0 <= k < all.len() implies '0' <= (#[trigger] all[k]) <= '9' by {
            if k < all.len() - 1 {
                assert(all[k] == crate::text::decimal_digits(n / 10)[k]);
            }
        }
    }
}

/// The name of a link's pin is the index of its interface, and is read back as that index.
pub proof fn law_link_names_read_back(ifindex: u32)
    ensures
        number(crate::text::decimal_digits(ifindex as nat)) == Some(ifindex),
{
    lemma_decimal_value(ifindex as nat);
    let text = crate::text::decimal_digits(ifindex as nat);
    assert('0' <= text[0]);
    assert(unsigned(text) == text);
}

/// The name of the pin of an interface's link.
pub fn link_name(ifindex: u32) -> (r: String)
    ensures
        r@ == crate::text::decimal_digits(ifindex as nat),
{
    decimal(ifindex as u64)
}

/// The file that holds the index of an interface. (An empty name adds no component to the path.)
pub open spec fn index_path_of(name: Seq<char>) -> Seq<char> {
    if name.len() == 0 {
        "/sys/class/net/ifindex"@
    } else {
        "/sys/class/net/"@ + name + "/ifindex"@
    }
}

/// The file that holds the index of an interface.
pub fn index_path(name: &String) -> (r: String)
    ensures
        r@ == index_path_of(name@),
{
    if name.as_str().unicode_len() == 0 {
        String::from_str("/sys/class/net/ifindex")
    } else {
        String::from_str("/sys/class/net/").concat(name.as_str()).concat("/ifindex")
    }
}

/// Why the interfaces cannot be used.
#[derive(Debug, Clone, PartialEq, Eq)]
pub enum InterfaceError {
    /// The name cannot be the name of an interface.
    InvalidName(String),
    /// The system gives no index for the interface.
    NotAnIndex(String),
    /// Two interfaces have the same index.
    Duplicate(u32),
}

impl InterfaceError {
    pub open spec fn text(self) -> Seq<char> {
        match self {
            InterfaceError::InvalidName(name) => "invalid interface name "@
                + crate::text::quoted_text(name@),
            InterfaceError::NotAnIndex(name) => "read interface index from "@ + index_path_of(name@),
            InterfaceError::Duplicate(ifindex) => "multiple XDP interfaces resolved to ifindex "@
                + crate::text::decimal_digits(ifindex as nat),
        }
    }

    pub fn message(&self) -> (r: String)
        ensures
            r@ == self.text(),
    {
        match self {
            InterfaceError::InvalidName(name) => String::from_str("invalid interface name ").concat(
                quoted(name.as_str()).as_str(),
            ),
            InterfaceError::NotAnIndex(name) => String::from_str(
                "read interface index from ",
            ).concat(index_path(name).as_str()),
            InterfaceError::Duplicate(ifindex) => String::from_str(
                "multiple XDP interfaces resolved to ifindex ",
            ).concat(decimal(*ifindex as u64).as_str()),
        }
    }
}

/// The name would lead out of the directory of interfaces.
pub open spec fn unsafe_name(name: Seq<char>) -> bool {
    name.contains('/') || name == "."@ || name == ".."@
}

/// Refuses a name that would lead out of the directory of interfaces.
pub fn check_name(name: &String) -> (r: Result<(), InterfaceError>)
    ensures
        if unsafe_name(name@) {
            r == Err::<(), InterfaceError>(InterfaceError::InvalidName(*name))
        } else {
            r is Ok
        },
{
    let len: usize = name.as_str().unicode_len();
    let mut i: usize = 0;
    let mut slash: bool = false;
    while i < len
        invariant
            i <= len,
            len == name@.len(),
            slash == name@.take(i as int).contains('/'),
        decreases len - i,
    {
        let ghost (a, b) = (name@.take(i as int), name@.take(i + 1));
        let c: char = name.as_str().get_char(i);
        proof {
            assert(b =~= a.push(c));
            if a.contains('/') {
                let k = choose|k: int| 0 <= k < a.len() && a[k] == '/';
                assert(b[k] == '/');
            }
            if c == '/' {
                assert(b[i as int] == '/');
            }
            if b.contains('/') {
                let k = choose|k: int| 0 <= k < b.len() && b[k] == '/';
                if k < i {
                    assert(a[k] == '/');
                }
            }
        }
        if c == '/' {
            slash = true;
        }
        i = i + 1;
    }
    assert(name@.take(i as int) =~= name@);
    if slash || *name == String::from_str(".") || *name == String::from_str("..") {
        Err(InterfaceError::InvalidName(name.clone()))
    } else {
        Ok(())
    }
}

/// An interface that XDP filters.
#[derive(Debug, Clone, PartialEq, Eq)]
pub struct Interface {
    pub ifindex: u32,
    pub name: String,
}

/// The interface with this index is in the list.
pub open spec fn has_index(interfaces: Seq<Interface>, ifindex: u32) -> bool {
    exists|k: int| 0 <= k < interfaces.len() && (#[trigger] interfaces[k]).ifindex == ifindex
}

/// The interfaces are in the order of their indices, each index once.
pub open spec fn by_index(interfaces: Seq<Interface>) -> bool {
    forall|i: int, j: int|
        0 <= i < j < interfaces.len() ==> (#[trigger] interfaces[i]).ifindex < (
        #[trigger] interfaces[j]).ifindex
}

/// The list with an interface put in at a place.
pub open spec fn inserted(
    before: Seq<Interface>,
    after: Seq<Interface>,
    k: int,
    ifindex: u32,
    name: String,
) -> bool {
    0 <= k <= before.len() && after == before.insert(k, Interface { ifindex, name })
}

/// Adds an interface, whose index the system gives as a text, to the list at its place. An
/// interface without an index, or with one that is taken, is refused, and the list stays as it
/// was.
pub fn add_interface(interfaces: &mut Vec<Interface>, name: &String, index_text: &str) -> (r: Result<
    (),
    InterfaceError,
>)
    requires
        by_index(old(interfaces)@),
    ensures
        by_index(final(interfaces)@),
        match number(crate::text::trimmed(index_text@)) {
            None => r == Err::<(), InterfaceError>(InterfaceError::NotAnIndex(*name))
                && final(interfaces)@ == old(interfaces)@,
            Some(ifindex) => if has_index(old(interfaces)@, ifindex) {
                r == Err::<(), InterfaceError>(InterfaceError::Duplicate(ifindex)) && final(interfaces)@ == old(interfaces)@
            } else {
                &&& r is Ok
                &&& exists|k: int| #[trigger]
                    inserted(old(interfaces)@, final(interfaces)@, k, ifindex, *name)
            },
        },
{
    let ifindex: u32 = match parse_number(index_text.trim()) {
        None => {
            return Err(InterfaceError::NotAnIndex(name.clone()));
        },
        Some(ifindex) => ifindex,
    };
    let ghost before = interfaces@;
    let mut k: usize = 0;
    while k < interfaces.len() && interfaces[k].ifindex < ifindex
        invariant
            k <= interfaces@.len(),
            interfaces@ == before,
            by_index(before),
            forall|j: int| 0 <= j < k ==> (#[trigger] interfaces@[j]).ifindex < ifindex,
        decreases interfaces@.len() - k,
    {
        k = k + 1;
    }
    if k < interfaces.len() && interfaces[k].ifindex == ifindex {
        assert(has_index(before, ifindex));
        return Err(InterfaceError::Duplicate(ifindex));
    }
    assert(!has_index(before, ifindex)) by {
        if has_index(before, ifindex) {
            let j = choose|j: int|
                0 <= j < before.len() && (#[trigger] before[j]).ifindex == ifindex;
            if j > k {
                assert(before[k as int].ifindex < before[j].ifindex);
            }
        }
    }
    let added = Interface { ifindex, name: name.clone() };
    interfaces.insert(k, added);
    proof {
        assert(inserted(before, interfaces@, k as int, ifindex, *name));
        assert forall|i: int, j: int| 0 <= i < j < interfaces@.len() implies (
        #[trigger] interfaces@[i]).ifindex < (#[trigger] interfaces@[j]).ifindex by {
            if i < k && j > k {
                assert(before[i].ifindex < before[j - 1].ifindex);
            } else if i > k {
                assert(before[i - 1].ifindex < before[j - 1].ifindex);
            } else if i == k {
                assert(before[k as int].ifindex <= before[j - 1].ifindex);
            }
        }
    }
    Ok(())
}

/// What to do with a pin in the directory of links.
#[derive(Debug, Clone, Copy, PartialEq, Eq, Structural)]
pub enum LinkDisposition {
    /// It is not named as this program names its pins: leave it.
    Ignore,
    /// The link of an interface that XDP filters: keep it.
    Keep(u32),
    /// The link of another interface: remove it.
    Remove(u32),
}

/// What to do with a pin of this name; a name that is no text is not one of ours.
pub fn link_disposition(name: Option<&str>, interfaces: &Vec<Interface>) -> (r: LinkDisposition)
    ensures
        r == (match name {
            None => LinkDisposition::Ignore,
            Some(name) => match number(name@) {
                None => LinkDisposition::Ignore,
                Some(ifindex) => if has_index(interfaces@, ifindex) {
                    LinkDisposition::Keep(ifindex)
                } else {
                    LinkDisposition::Remove(ifindex)
                },
            },
        }),
{
    match name {
        None => LinkDisposition::Ignore,
        Some(name) => match parse_number(name) {
            None => LinkDisposition::Ignore,
            Some(ifindex) => {
                if finds_index(interfaces, ifindex) {
                    LinkDisposition::Keep(ifindex)
                } else {
                    LinkDisposition::Remove(ifindex)
                }
            },
        },
    }
}

fn finds_index(interfaces: &Vec<Interface>, ifindex: u32) -> (r: bool)
    ensures
        r == has_index(interfaces@, ifindex),
{
    let mut k: usize = 0;
    while k < interfaces.len()
        invariant
            k <= interfaces@.len(),
            forall|j: int| 0 <= j < k ==> (#[trigger] interfaces@[j]).ifindex != ifindex,
        decreases interfaces@.len() - k,
    {
        if interfaces[k].ifindex == ifindex {
            return true;
        }
        k = k + 1;
    }
    false
}

/// The interfaces without a link, in order.
pub open spec fn unlinked(interfaces: Seq<Interface>, links: Seq<u32>) -> Seq<Interface>
    decreases interfaces.len(),
{
    if interfaces.len() == 0 {
        Seq::empty()
    } else {
        let before = unlinked(interfaces.drop_last(), links);
        if links.contains(interfaces.last().ifindex) {
            before
        } else {
            before.push(interfaces.last())
        }
    }
}

fn is_linked(links: &Vec<u32>, ifindex: u32) -> (r: bool)
    ensures
        r == links@.contains(ifindex),
{
    let mut k: usize = 0;
    while k < links.len()
        invariant
            k <= links@.len(),
            forall|j: int| 0 <= j < k ==> links@[j] != ifindex,
        decreases links@.len() - k,
    {
        if links[k] == ifindex {
            assert(links@[k as int] == ifindex);
            return true;
        }
        k = k + 1;
    }
    false
}

fn copy_interface(interface: &Interface) -> (r: Interface)
    ensures
        r == *interface,
{
    Interface { ifindex: interface.ifindex, name: interface.name.clone() }
}

/// The interfaces that need a link, in order.
pub fn missing_links(interfaces: &Vec<Interface>, links: &Vec<u32>) -> (r: Vec<Interface>)
    ensures
        r@ == unlinked(interfaces@, links@),
        forall|interface: Interface| #[trigger]
            r@.contains(interface) <==> interfaces@.contains(interface) && !links@.contains(
                interface.ifindex,
            ),
{
    let mut r: Vec<Interface> = Vec::new();
    let mut k: usize = 0;
    assert(interfaces@.take(0) =~= Seq::empty());
    while k < interfaces.len()
        invariant
            k <= interfaces@.len(),
            r@ == unlinked(interfaces@.take(k as int), links@),
        decreases interfaces@.len() - k,
    {
        proof {
            assert(interfaces@.take(k + 1).drop_last() =~= interfaces@.take(k as int));
            assert(interfaces@.take(k + 1).last() == interfaces@[k as int]);
        }
        if !is_linked(links, interfaces[k].ifindex) {
            r.push(copy_interface(&interfaces[k]));
        }
        k = k + 1;
    }
    proof {
        assert(interfaces@.take(k as int) =~= interfaces@);
        assert forall|interface: Interface| #[trigger]
            r@.contains(interface) <==> interfaces@.contains(interface) && !links@.contains(
                interface.ifindex,
            ) by {
            law_exactly_the_unlinked_are_missing(interfaces@, links@, interface);
        }
    }
    r
}

/// One round of attaching programs to the interfaces that have no link.
#[derive(Debug)]
pub struct LinkRound {
    missing: Vec<Interface>,
    attached: usize,
}

impl LinkRound {
    /// The interfaces of the round, in order.
    pub closed spec fn missing(self) -> Seq<Interface> {
        self.missing@
    }

    /// How many of them were attached.
    pub closed spec fn attached(self) -> nat {
        self.attached as nat
    }

    pub open spec fn wf(self) -> bool {
        self.attached() <= self.missing().len()
    }

    pub fn new(interfaces: &Vec<Interface>, links: &Vec<u32>) -> (round: Self)
        ensures
            round.wf(),
            round.missing() == unlinked(interfaces@, links@),
            forall|interface: Interface| #[trigger]
                round.missing().contains(interface) <==> interfaces@.contains(interface)
                    && !links@.contains(interface.ifindex),
            round.attached() == 0,
    {
        LinkRound { missing: missing_links(interfaces, links), attached: 0 }
    }

    /// The interface to attach next, until all are.
    pub fn next(&self) -> (r: Option<&Interface>)
        requires
            self.wf(),
        ensures
            match r {
                Some(interface) => self.attached() < self.missing().len() && *interface
                    == self.missing()[self.attached() as int],
                None => self.attached() == self.missing().len(),
            },
    {
        if self.attached < self.missing.len() {
            Some(&self.missing[self.attached])
        } else {
            None
        }
    }

    /// The interface was attached.
    pub fn succeeded(&mut self)
        requires
            old(self).wf(),
            old(self).attached() < old(self).missing().len(),
        ensures
            final(self).wf(),
            final(self).missing() == old(self).missing(),
            final(self).attached() == old(self).attached() + 1,
    {
        if self.attached < self.missing.len() {
            self.attached = self.attached + 1;
        }
    }

    /// The interface could not be attached: the links of the round, which are to be removed again.
    pub fn failed(&self) -> (r: Vec<u32>)
        requires
            self.wf(),
        ensures
            r@ == self.missing().take(self.attached() as int).map_values(
                |i: Interface| i.ifindex,
            ),
    {
        let mut r: Vec<u32> = Vec::new();
        let mut k: usize = 0;
        while k < self.attached
            invariant
                k <= self.attached <= self.missing@.len(),
                r@ == self.missing@.take(k as int).map_values(|i: Interface| i.ifindex),
            decreases self.attached - k,
        {
            r.push(self.missing[k].ifindex);
            k = k + 1;
            assert(r@ =~= self.missing@.take(k as int).map_values(|i: Interface| i.ifindex));
        }
        r
    }
}

/// An interface is to get a link exactly where it is configured and has none yet. Nothing else
/// matters: not how many links there are, nor whether there are any.
pub proof fn law_exactly_the_unlinked_are_missing(
    interfaces: Seq<Interface>,
    links: Seq<u32>,
    interface: Interface,
)
    ensures
        unlinked(interfaces, links).contains(interface) <==> interfaces.contains(interface)
            && !links.contains(interface.ifindex),
    decreases interfaces.len(),
{
    let all = unlinked(interfaces, links);
    if interfaces.len() > 0 {
        let before = interfaces.drop_last();
        let list = unlinked(before, links);
        let last = interfaces.last();
        law_exactly_the_unlinked_are_missing(before, links, interface);
        if all.contains(interface) {
            let k = choose|k: int| 0 <= k < all.len() && all[k] == interface;
            if k < list.len() {
                assert(list[k] == interface);
                let j = choose|j: int| 0 <= j < before.len() && before[j] == interface;
                assert(interfaces[j] == interface);
            } else {
                assert(interfaces[interfaces.len() - 1] == interface);
            }
        }
        if interfaces.contains(interface) && !links.contains(interface.ifindex) {
            let j = choose|j: int| 0 <= j < interfaces.len() && interfaces[j] == interface;
            if j < before.len() {
                assert(before[j] == interface);
                let k = choose|k: int| 0 <= k < list.len() && list[k] == interface;
                assert(all[k] == interface);
            } else {
                assert(all[list.len() as int] == last);
            }
        }
    }
}

/// The interfaces that are to get a link stay in the order of their indices, so no interface is
/// attached twice.
pub proof fn law_missing_links_keep_their_order(interfaces: Seq<Interface>, links: Seq<u32>)
    requires
        by_index(interfaces),
    ensures
        by_index(unlinked(interfaces, links)),
    decreases interfaces.len(),
{
    if interfaces.len() > 0 {
        let before = interfaces.drop_last();
        law_missing_links_keep_their_order(before, links);
        let (list, all) = (unlinked(before, links), unlinked(interfaces, links));
        assert forall|i: int, j: int| 0 <= i < j < all.len() implies (#[trigger] all[i]).ifindex < (
        #[trigger] all[j]).ifindex by {
            if j == list.len() {
                assert(list.contains(list[i]));
                law_exactly_the_unlinked_are_missing(before, links, list[i]);
                let m = choose|m: int| 0 <= m < before.len() && before[m] == list[i];
                assert(interfaces[m].ifindex < interfaces[interfaces.len() - 1].ifindex);
            } else {
                assert(list[i].ifindex < list[j].ifindex);
            }
        }
    }
}

/// Once a round has attached everything it set out to attach, every configured interface has a
/// link: one from before, or one of the round.
pub proof fn law_a_finished_round_links_every_interface(
    interfaces: Seq<Interface>,
    links: Seq<u32>,
    round: LinkRound,
    interface: Interface,
)
    requires
        round.missing() == unlinked(interfaces, links),
        round.attached() == round.missing().len(),
        interfaces.contains(interface),
    ensures
        links.contains(interface.ifindex) || exists|k: int|
            0 <= k < round.attached() && (#[trigger] round.missing()[k]).ifindex
                == interface.ifindex,
{
    law_exactly_the_unlinked_are_missing(interfaces, links, interface);
    if !links.contains(interface.ifindex) {
        let all = round.missing();
        let k = choose|k: int| 0 <= k < all.len() && #[trigger] all[k] == interface;
        assert(round.missing()[k].ifindex == interface.ifindex);
    }
}

/// A round that fails removes no link that was there before it: every index it attaches had none.
pub proof fn law_rollback_spares_earlier_links(
    interfaces: Seq<Interface>,
    links: Seq<u32>,
    attached: int,
    k: int,
)
    requires
        0 <= k < attached <= unlinked(interfaces, links).len(),
    ensures
        !links.contains(
            unlinked(interfaces, links).take(attached).map_values(|i: Interface| i.ifindex)[k],
        ),
{
    let interface = unlinked(interfaces, links)[k];
    assert(unlinked(interfaces, links).contains(interface));
    law_exactly_the_unlinked_are_missing(interfaces, links, interface);
}

/// How a program is attached.
#[derive(Debug, Clone, Copy, PartialEq, Eq, Structural)]
pub enum AttachMode {
    /// In the driver.
    Driver,
    /// Behind it, on socket buffers.
    Skb,
}

/// The modes to try, in order.
pub open spec fn modes_of(mode: XdpMode) -> Seq<AttachMode> {
    match mode {
        XdpMode::Auto => seq![AttachMode::Driver, AttachMode::Skb],
        XdpMode::Native => seq![AttachMode::Driver],
        XdpMode::Generic => seq![AttachMode::Skb],
    }
}

/// The modes to try, in order.
pub fn attach_modes(mode: XdpMode) -> (r: Vec<AttachMode>)
    ensures
        r@ == modes_of(mode),
{
    let mut r: Vec<AttachMode> = Vec::new();
    match mode {
        XdpMode::Auto => {
            r.push(AttachMode::Driver);
            r.push(AttachMode::Skb);
        },
        XdpMode::Native => r.push(AttachMode::Driver),
        XdpMode::Generic => r.push(AttachMode::Skb),
    }
    assert(r@ =~= modes_of(mode));
    r
}

/// One error in a chain of causes.
#[derive(Debug, Clone, Copy, PartialEq, Eq, Structural)]
pub enum Cause {
    /// A system error, with its number where it has one.
    System(Option<i32>),
    /// Any other error.
    Other,
}

/// The number says that the operation is not supported.
pub open spec fn unsupported_number(errno: Option<i32>) -> bool {
    errno == Some(22i32) || errno == Some(45i32) || errno == Some(95i32)
}

/// The first system error in the chain says that the operation is not supported.
pub open spec fn unsupported(causes: Seq<Cause>) -> bool
    decreases causes.len(),
{
    if causes.len() == 0 {
        false
    } else {
        match causes[0] {
            Cause::System(errno) => unsupported_number(errno),
            Cause::Other => unsupported(causes.drop_first()),
        }
    }
}

/// Whether an attachment failed because the mode is not supported, by its chain of causes.
pub fn unsupported_native(causes: &Vec<Cause>) -> (r: bool)
    ensures
        r == unsupported(causes@),
{
    let mut k: usize = 0;
    assert(causes@.skip(0) =~= causes@);
    while k < causes.len()
        invariant
            k <= causes@.len(),
            unsupported(causes@) == unsupported(causes@.skip(k as int)),
        decreases causes@.len() - k,
    {
        match causes[k] {
            Cause::System(errno) => {
                return match errno {
                    Some(number) => number == 22 || number == 45 || number == 95,
                    None => false,
                };
            },
            Cause::Other => {},
        }
        assert(causes@.skip(k as int).drop_first() =~= causes@.skip(k + 1));
        k = k + 1;
    }
    false
}

/// Whether to try the next mode after one failed: only where there is one, and the failed one is
/// not supported.
pub fn tries_next_mode(mode: XdpMode, position: usize, causes: &Vec<Cause>) -> (r: bool)
    ensures
        r == (position + 1 < modes_of(mode).len() && unsupported(causes@)),
{
    let modes = attach_modes(mode);
    modes.len() >= 2 && position < modes.len() - 1 && unsupported_native(causes)
}

/// Generic mode is tried only if it is configured, or if native mode was tried first.
pub proof fn law_native_comes_first(mode: XdpMode, position: int)
    requires
        0 <= position < modes_of(mode).len(),
        modes_of(mode)[position] == AttachMode::Skb,
    ensures
        mode == XdpMode::Generic || mode == XdpMode::Auto && position == 1 && modes_of(mode)[0]
            == AttachMode::Driver,
{
}

/// A round that fails removes every link that it has made, and nothing else.
pub proof fn law_rollback_undoes_the_round(round: LinkRound, removed: Vec<u32>, ifindex: u32)
    requires
        round.wf(),
        call_ensures(LinkRound::failed, (&round,), removed),
    ensures
        removed@.contains(ifindex) <==> exists|k: int|
            0 <= k < round.attached() && (#[trigger] round.missing()[k]).ifindex == ifindex,
{
    let part = round.missing().take(round.attached() as int);
    let all = part.map_values(|i: Interface| i.ifindex);
    if removed@.contains(ifindex) {
        let k = choose|k: int| 0 <= k < removed@.len() && #[trigger] removed@[k] == ifindex;
        assert(all[k] == part[k].ifindex);
        assert(round.missing()[k].ifindex == ifindex);
    }
    if exists|k: int|
        0 <= k < round.attached() && (#[trigger] round.missing()[k]).ifindex == ifindex {
        let k = choose|k: int|
            0 <= k < round.attached() && (#[trigger] round.missing()[k]).ifindex == ifindex;
        assert(all[k] == part[k].ifindex);
        assert(removed@[k] == ifindex);
    }
}

/// Every character of the text is a decimal digit.
pub open spec fn all_digits(text: Seq<char>) -> bool {
    forall|k: int| 0 <= k < text.len() ==> '0' <= (#[trigger] text[k]) <= '9'
}

proof fn lemma_digits_only(text: Seq<char>)
    ensures
        digits_value(text) is Some <==> all_digits(text),
        digits_value(text) matches Some(value) ==> value >= 0,
    decreases text.len(),
{
    if text.len() > 0 {
        let before = text.drop_last();
        lemma_digits_only(before);
        if all_digits(text) {
            assert forall|k: int| 0 <= k < before.len() implies '0' <= (#[trigger] before[k])
                <= '9' by {
                assert(before[k] == text[k]);
            }
            assert('0' <= text[text.len() - 1] <= '9');
        }
        if digits_value(text) is Some {
            assert forall|k: int| 0 <= k < text.len() implies '0' <= (#[trigger] text[k])
                <= '9' by {
                if k < before.len() {
                    assert(text[k] == before[k]);
                }
            }
        }
    }
}

/// A text is a number only where it is made of digits, at least one, behind at most one plus sign;
/// the sign changes nothing.
pub proof fn law_numbers_are_digits(text: Seq<char>)
    ensures
        number(text) is Some ==> all_digits(text) && text.len() > 0 || text.len() > 1 && text[0]
            == '+' && all_digits(text.drop_first()),
        all_digits(text) && text.len() > 0 ==> number(seq!['+'] + text) == number(text),
{
    lemma_digits_only(unsigned(text));
    if all_digits(text) && text.len() > 0 {
        assert((seq!['+'] + text).drop_first() =~= text);
        assert('0' <= text[0] <= '9');
    }
}

/// A digit behind a number makes it ten times as large and adds its own value, as long as the result
/// fits 32 bits; a single digit is its own value.
pub proof fn law_numbers_are_decimal(text: Seq<char>, digit: char)
    requires
        '0' <= digit <= '9',
        all_digits(text),
    ensures
        text.len() == 0 ==> number(text.push(digit)) == Some((digit as u32 - '0' as u32) as u32),
        text.len() > 0 ==> (number(text) matches Some(value) ==> number(text.push(digit)) == (if 10
            * value + (digit as u32 - '0' as u32) <= u32::MAX {
            Some((10 * value + (digit as u32 - '0' as u32)) as u32)
        } else {
            None
        })),
        text.len() > 0 && number(text) is None ==> number(text.push(digit)) is None,
{
    let all = text.push(digit);
    assert(all.drop_last() =~= text);
    lemma_digits_only(text);
    lemma_digits_only(all);
    if text.len() > 0 {
        assert('0' <= text[0] <= '9');
    }
    assert(all[0] == if text.len() > 0 {
        text[0]
    } else {
        digit
    });
    assert(digits_value(Seq::<char>::empty()) == Some(0int));
    if text.len() == 0 {
        assert(text =~= Seq::empty());
    }
}

/// A pin is kept exactly where its name is the index of a configured interface, and removed exactly
/// where it is the index of another; any other pin is left alone.
pub proof fn law_pins_follow_the_configuration(
    name: &str,
    interfaces: &Vec<Interface>,
    r: LinkDisposition,
    ifindex: u32,
)
    requires
        call_ensures(link_disposition, (Some(name), interfaces), r),
    ensures
        r == LinkDisposition::Keep(ifindex) <==> number(name@) == Some(ifindex) && exists|k: int|
            0 <= k < interfaces@.len() && (#[trigger] interfaces@[k]).ifindex == ifindex,
        r == LinkDisposition::Remove(ifindex) <==> number(name@) == Some(ifindex) && forall|k: int|
            0 <= k < interfaces@.len() ==> (#[trigger] interfaces@[k]).ifindex != ifindex,
        r is Ignore <==> number(name@) is None,
{
}

/// A pin whose name is no text is left alone.
pub proof fn law_nameless_pins_are_left_alone(interfaces: &Vec<Interface>, r: LinkDisposition)
    requires
        call_ensures(link_disposition, (None, interfaces), r),
    ensures
        r is Ignore,
{
}

/// A name is accepted exactly where no character of it is a slash and it is neither of the two names
/// that stand for directories.
pub proof fn law_names_stay_in_their_directory(name: &String, r: Result<(), InterfaceError>)
    requires
        call_ensures(check_name, (name,), r),
    ensures
        r is Ok <==> (forall|k: int| 0 <= k < name@.len() ==> #[trigger] name@[k] != '/') && name@
            != seq!['.'] && name@ != seq!['.', '.'],
{
    reveal_strlit(".");
    reveal_strlit("..");
    assert("."@ =~= seq!['.']);
    assert(".."@ =~= seq!['.', '.']);
    if name@.contains('/') {
        let k = choose|k: int| 0 <= k < name@.len() && name@[k] == '/';
        assert(name@[k] == '/');
    }
}

/// Adding an interface adds that interface and keeps all others.
pub proof fn law_added_interfaces_join_the_others(
    before: Seq<Interface>,
    after: Seq<Interface>,
    k: int,
    ifindex: u32,
    name: String,
    interface: Interface,
)
    requires
        inserted(before, after, k, ifindex, name),
    ensures
        after.contains(interface) <==> before.contains(interface) || interface.ifindex == ifindex
            && interface.name == name,
        after.len() == before.len() + 1,
{
    let new = Interface { ifindex, name };
    if after.contains(interface) {
        let i = choose|i: int| 0 <= i < after.len() && after[i] == interface;
        if i < k {
            assert(before[i] == interface);
        } else if i > k {
            assert(before[i - 1] == interface);
        }
    }
    if before.contains(interface) {
        let i = choose|i: int| 0 <= i < before.len() && before[i] == interface;
        if i < k {
            assert(after[i] == interface);
        } else {
            assert(after[i + 1] == interface);
        }
    }
    assert(after[k] == new);
}

/// Native mode is tried exactly where generic mode is not asked for, generic mode exactly where
/// native mode is not, and neither twice.
pub proof fn law_modes_follow_the_configuration(mode: XdpMode)
    ensures
        modes_of(mode).contains(AttachMode::Driver) <==> mode != XdpMode::Generic,
        modes_of(mode).contains(AttachMode::Skb) <==> mode != XdpMode::Native,
        modes_of(mode).no_duplicates(),
{
    let all = modes_of(mode);
    assert(mode != XdpMode::Generic ==> all[0] == AttachMode::Driver);
    assert(mode == XdpMode::Generic ==> all[0] == AttachMode::Skb);
    assert(mode == XdpMode::Auto ==> all[1] == AttachMode::Skb);
}

/// The first system error among the causes decides, whatever causes of other kinds come before it
/// and whatever follows it: the mode is not supported where its number is one of the three that say
/// so. Without a system error nothing says so.
pub proof fn law_the_first_system_error_decides(causes: Seq<Cause>, k: int)
    requires
        0 <= k <= causes.len(),
        forall|j: int| 0 <= j < k ==> (#[trigger] causes[j]) is Other,
        k < causes.len() ==> causes[k] is System,
    ensures
        k == causes.len() ==> !unsupported(causes),
        k < causes.len() ==> (unsupported(causes) <==> causes[k] == Cause::System(Some(22))
            || causes[k] == Cause::System(Some(45)) || causes[k] == Cause::System(Some(95))),
    decreases causes.len(),
{
    if k > 0 {
        let rest = causes.drop_first();
        assert(causes[0] is Other);
        assert forall|j: int| 0 <= j < k - 1 implies (#[trigger] rest[j]) is Other by {
            assert(rest[j] == causes[j + 1]);
        }
        law_the_first_system_error_decides(rest, k - 1);
    }
}

/// Generic mode is tried after native mode only in automatic mode, and only where native mode is
/// not supported; a failure of any other kind is final, and so is one of the last mode.
pub proof fn law_only_unsupported_modes_are_followed(
    mode: XdpMode,
    position: usize,
    causes: &Vec<Cause>,
    r: bool,
)
    requires
        call_ensures(tries_next_mode, (mode, position, causes), r),
    ensures
        r <==> mode == XdpMode::Auto && position == 0 && unsupported(causes@),
{
}

/// The index of an interface is read from a file of its own: different names have different files.
pub proof fn law_index_files_are_distinct(a: Seq<char>, b: Seq<char>)
    requires
        index_path_of(a) == index_path_of(b),
    ensures
        a == b,
{
    reveal_strlit("/sys/class/net/ifindex");
    reveal_strlit("/sys/class/net/");
    reveal_strlit("/ifindex");
    let (x, y) = (index_path_of(a), index_path_of(b));
    assert(a.len() == 0 ==> x.len() == 22);
    assert(a.len() > 0 ==> x.len() == 23 + a.len());
    assert(b.len() == 0 ==> y.len() == 22);
    assert(b.len() > 0 ==> y.len() == 23 + b.len());
    if a.len() == 0 || b.len() == 0 {
        assert(a =~= b);
    } else {
        assert(x.subrange(15, 15 + a.len() as int) =~= a);
        assert(y.subrange(15, 15 + b.len() as int) =~= b);
    }
}

/// The links that are missing are those of the configured interfaces that have none, and a round
/// sets out to make exactly these, in the order of the indices.
pub proof fn law_rounds_make_the_missing_links(
    interfaces: &Vec<Interface>,
    links: &Vec<u32>,
    missing: Vec<Interface>,
    round: LinkRound,
    interface: Interface,
)
    requires
        by_index(interfaces@),
        call_ensures(missing_links, (interfaces, links), missing),
        call_ensures(LinkRound::new, (interfaces, links), round),
    ensures
        missing@.contains(interface) <==> interfaces@.contains(interface) && !links@.contains(
            interface.ifindex,
        ),
        round.missing() == missing@,
        round.attached() == 0,
        by_index(missing@),
{
    law_exactly_the_unlinked_are_missing(interfaces@, links@, interface);
    law_missing_links_keep_their_order(interfaces@, links@);
}

/// A round goes through its interfaces one by one: the next is the first that was not attached yet,
/// and there is none exactly where all were. Attaching one leaves the others as they are.
pub proof fn law_rounds_go_on_in_turn()
    ensures
        forall|round: &LinkRound, next: Option<&Interface>| #[trigger]
            call_ensures(LinkRound::next, (round,), next) && round.wf() ==> (next is None
                <==> round.attached() == round.missing().len()) && (next matches Some(interface)
                ==> *interface == round.missing()[round.attached() as int]),
        forall|round: &mut LinkRound| #[trigger]
            call_ensures(LinkRound::succeeded, (round,), ()) ==> (*final(round)).missing() == (
            *round).missing() && (*final(round)).attached() == (*round).attached() + 1,
{
}

/// An interface is taken in under the index that the system gives for it, unless the text is no
/// index or the index is taken; then the interfaces stay as they were.
pub proof fn law_interfaces_are_taken_in_under_their_index()
    ensures
        forall|
            interfaces: &mut Vec<Interface>,
            name: &String,
            text: &str,
            r: Result<(), InterfaceError>,
        | #[trigger]
            call_ensures(add_interface, (interfaces, name, text), r) ==> {
                let index = number(crate::text::trimmed(text@));
                &&& r is Ok <==> index is Some && forall|k: int|
                    0 <= k < (*interfaces)@.len() ==> (#[trigger] (*interfaces)@[k]).ifindex
                        != index->0
                &&& r is Ok ==> (*final(interfaces))@.contains(
                    Interface { ifindex: index->0, name: *name },
                )
                &&& r is Ok ==> (*final(interfaces))@.len() == (*interfaces)@.len() + 1
                &&& r is Err ==> (*final(interfaces))@ == (*interfaces)@
            },
{
    assert forall|
        interfaces: &mut Vec<Interface>,
        name: &String,
        text: &str,
        r: Result<(), InterfaceError>,
    | #[trigger]
        call_ensures(add_interface, (interfaces, name, text), r) implies {
        let index = number(crate::text::trimmed(text@));
        &&& r is Ok <==> index is Some && forall|k: int|
            0 <= k < (*interfaces)@.len() ==> (#[trigger] (*interfaces)@[k]).ifindex != index->0
        &&& r is Ok ==> (*final(interfaces))@.contains(
            Interface { ifindex: index->0, name: *name },
        )
        &&& r is Ok ==> (*final(interfaces))@.len() == (*interfaces)@.len() + 1
        &&& r is Err ==> (*final(interfaces))@ == (*interfaces)@
    } by {
        let index = number(crate::text::trimmed(text@));
        if r is Ok {
            let k = choose|k: int| #[trigger]
                inserted((*interfaces)@, (*final(interfaces))@, k, index->0, *name);
            law_added_interfaces_join_the_others(
                (*interfaces)@,
                (*final(interfaces))@,
                k,
                index->0,
                *name,
                Interface { ifindex: index->0, name: *name },
            );
        }
    }
}

} // verus!
