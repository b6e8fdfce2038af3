//! Serial ports: which exist, which is meant, and which device sits behind one.
use crate::text;
use vstd::prelude::*;
use vstd::utf8::*;

verus! {

/// A port as it is offered to the user.
#[derive(Debug, PartialEq, Eq)]
pub struct PortInfo {
    pub path: String,
    pub label: String,
    pub is_usb: bool,
}

/// The contents of a port entry.
#[verifier::ext_equal]
pub struct PortInfoView {
    pub path: Seq<char>,
    pub label: Seq<char>,
    pub is_usb: bool,
}

impl View for PortInfo {
    type V = PortInfoView;

    open spec fn view(&self) -> PortInfoView {
        PortInfoView { path: self.path@, label: self.label@, is_usb: self.is_usb }
    }
}

impl Clone for PortInfo {
    fn clone(&self) -> (r: Self)
        ensures
            r@ == self@,
    {
        PortInfo { path: self.path.clone(), label: self.label.clone(), is_usb: self.is_usb }
    }
}

/// What is known of a USB serial device.
#[derive(Debug)]
pub struct UsbInfo {
    pub vid: u16,
    pub pid: u16,
    pub serial_number: Option<String>,
    pub manufacturer: Option<String>,
    pub product: Option<String>,
}

/// The bus a port hangs on.
#[derive(Debug)]
pub enum PortKind {
    Usb(UsbInfo),
    Bluetooth,
    Pci,
    Unknown,
}

/// A port that the system enumerates.
#[derive(Debug)]
pub struct DetectedPort {
    pub path: String,
    pub kind: PortKind,
}

/// A terminal device found in the system's device tree.
#[derive(Debug)]
pub struct TtyEntry {
    pub name: String,
    /// Hardware stands behind it
    pub has_device: bool,
    /// Its node exists under `/dev`
    pub node_exists: bool,
}

/// The views of a sequence of ports.
pub open spec fn infos(ports: Seq<PortInfo>) -> Seq<PortInfoView> {
    ports.map_values(|p: PortInfo| p@)
}

/// Whether a path is named like a USB serial port.
pub open spec fn usb_named(path: Seq<char>) -> bool {
    let l = text::leaf(path);
    ||| text::occurs("usbmodem"@, l)
    ||| text::occurs("usbserial"@, l)
    ||| text::occurs("wchusbserial"@, l)
    ||| text::occurs("SLAB_USBtoUART"@, l)
    ||| text::occurs("ttyUSB"@, l)
    ||| text::occurs("ttyACM"@, l)
    ||| text::occurs("usbmodemserial"@, l)
}

pub fn looks_like_usb(path: &str) -> (r: bool)
    ensures
        r == usb_named(path@),
{
    let leaf = text::leaf_of(path);
    let l = leaf.as_str();
    text::contains_text(l, "usbmodem") || text::contains_text(l, "usbserial")
        || text::contains_text(l, "wchusbserial") || text::contains_text(l, "SLAB_USBtoUART")
        || text::contains_text(l, "ttyUSB") || text::contains_text(l, "ttyACM")
        || text::contains_text(l, "usbmodemserial")
}

/// Whether a path is one of the ports that always exist on macOS and are never the
/// board you are looking for.
pub open spec fn noise(path: Seq<char>) -> bool {
    let l = text::leaf(path);
    ||| l == "cu.Bluetooth-Incoming-Port"@
    ||| l == "tty.Bluetooth-Incoming-Port"@
    ||| l == "cu.debug-console"@
    ||| l == "tty.debug-console"@
    ||| l == "cu.wlan-debug"@
    ||| l == "tty.wlan-debug"@
}

pub fn is_noise(path: &str) -> (r: bool)
    ensures
        r == noise(path@),
{
    let leaf = text::leaf_of(path);
    let l = leaf.as_str();
    text::same_text(l, "cu.Bluetooth-Incoming-Port") || text::same_text(
        l,
        "tty.Bluetooth-Incoming-Port",
    ) || text::same_text(l, "cu.debug-console") || text::same_text(l, "tty.debug-console")
        || text::same_text(l, "cu.wlan-debug") || text::same_text(l, "tty.wlan-debug")
}

/// The callout device next to a `tty.` device.
pub open spec fn callout(path: Seq<char>) -> Option<Seq<char>> {
    let l = text::leaf(path);
    if "tty."@.is_prefix_of(l) {
        Some("/dev/cu."@ + l.skip("tty."@.len() as int))
    } else {
        None
    }
}

/// The path of the callout device that would belong to a `tty.` path.
pub fn callout_twin(path: &str) -> (r: Option<String>)
    ensures
        r is Some <==> callout(path@) is Some,
        r matches Some(s) ==> callout(path@) == Some(s@),
{
    let leaf = text::leaf_of(path);
    match text::after_prefix(leaf.as_str(), "tty.") {
        Some(rest) => {
            let mut cu = "/dev/cu.".to_owned();
            cu.append(rest.as_str());
            Some(cu)
        },
        None => None,
    }
}

/// On macOS `/dev/tty.*` blocks on open until DCD is asserted, which is the classic
/// "the terminal just hangs" trap. The `/dev/cu.*` twin does not: it is preferred
/// where it exists.
pub fn prefer_callout(path: &str, twin_exists: bool) -> (r: Option<String>)
    ensures
        r is Some <==> callout(path@) is Some && twin_exists,
        r matches Some(s) ==> callout(path@) == Some(s@),
{
    if twin_exists {
        callout_twin(path)
    } else {
        None
    }
}

/// The two names of a USB device that are known, or its numbers when neither is.
pub open spec fn usb_label(
    manufacturer: Option<Seq<char>>,
    product: Option<Seq<char>>,
    vid: nat,
    pid: nat,
) -> Seq<char> {
    match (manufacturer, product) {
        (Some(m), Some(p)) => m + " "@ + p,
        (Some(m), None) => m,
        (None, Some(p)) => p,
        (None, None) => "USB "@ + text::hex4(vid) + ":"@ + text::hex4(pid),
    }
}

/// The view of an optional string.
pub open spec fn opt_text(s: Option<String>) -> Option<Seq<char>> {
    match s {
        Some(t) => Some(t@),
        None => None,
    }
}

impl DetectedPort {
    /// The text shown next to the path.
    pub open spec fn label_text(self) -> Seq<char> {
        match self.kind {
            PortKind::Usb(u) => usb_label(
                opt_text(u.manufacturer),
                opt_text(u.product),
                u.vid as nat,
                u.pid as nat,
            ),
            PortKind::Bluetooth => "Bluetooth"@,
            PortKind::Pci => "PCI"@,
            PortKind::Unknown => Seq::empty(),
        }
    }

    /// The entry that the port is listed under.
    pub open spec fn info(self) -> PortInfoView {
        PortInfoView {
            path: self.path@,
            label: self.label_text(),
            is_usb: self.kind is Usb || usb_named(self.path@),
        }
    }

    /// The name of the device behind the port and the path it sits on. Without a
    /// serial number two identical boards are indistinguishable, so such a device
    /// has no identity at all.
    pub open spec fn identity(self) -> Option<(Seq<char>, Seq<char>)> {
        match self.kind {
            PortKind::Usb(u) => match u.serial_number {
                Some(serial) => Some(
                    (
                        "usb-"@ + text::hex4(u.vid as nat) + ":"@ + text::hex4(u.pid as nat)
                            + "-"@ + serial@,
                        self.path@,
                    ),
                ),
                None => None,
            },
            _ => None,
        }
    }

    fn label(&self) -> (s: String)
        ensures
            s@ == self.label_text(),
    {
        match &self.kind {
            PortKind::Usb(u) => {
                let mut s = String::new();
                match &u.manufacturer {
                    Some(m) => {
                        s.append(m.as_str());
                        match &u.product {
                            Some(p) => {
                                s.append(" ");
                                s.append(p.as_str());
                            },
                            None => {},
                        }
                    },
                    None => match &u.product {
                        Some(p) => {
                            s.append(p.as_str());
                        },
                        None => {
                            s.append("USB ");
                            text::push_hex4(&mut s, u.vid);
                            s.append(":");
                            text::push_hex4(&mut s, u.pid);
                        },
                    },
                }
                assert(s@ =~= self.label_text());
                s
            },
            PortKind::Bluetooth => "Bluetooth".to_owned(),
            PortKind::Pci => "PCI".to_owned(),
            PortKind::Unknown => String::new(),
        }
    }

    fn to_info(&self) -> (p: PortInfo)
        ensures
            p@ == self.info(),
    {
        let is_usb = matches!(&self.kind, PortKind::Usb(_)) || looks_like_usb(self.path.as_str());
        PortInfo { path: self.path.clone(), label: self.label(), is_usb }
    }
}

/// An entry completed by another one for the same path: the first label that says
/// something stays.
pub open spec fn merged(a: PortInfoView, b: PortInfoView) -> PortInfoView {
    PortInfoView {
        path: a.path,
        label: if a.label.len() == 0 {
            b.label
        } else {
            a.label
        },
        is_usb: a.is_usb || b.is_usb,
    }
}

/// `found` with `port` merged into the first entry from `i` on that has its path, or
/// added at the end.
pub open spec fn merged_from(
    found: Seq<PortInfoView>,
    port: PortInfoView,
    i: int,
) -> Seq<PortInfoView>
    decreases found.len() - i,
{
    if i >= found.len() {
        found.push(port)
    } else if found[i].path == port.path {
        found.update(i, merged(found[i], port))
    } else {
        merged_from(found, port, i + 1)
    }
}

/// `found` with each of `ports` merged in.
pub open spec fn merged_all(
    found: Seq<PortInfoView>,
    ports: Seq<PortInfoView>,
) -> Seq<PortInfoView>
    decreases ports.len(),
{
    if ports.len() == 0 {
        found
    } else {
        merged_from(merged_all(found, ports.drop_last()), ports.last(), 0)
    }
}

/// Whether no path is listed twice.
pub open spec fn paths_distinct(ports: Seq<PortInfoView>) -> bool {
    forall|i: int, j: int|
        0 <= i < j < ports.len() ==> (#[trigger] ports[i]).path != (#[trigger] ports[j]).path
}

/// Adds a port, or completes the entry that already has its path.
pub fn push_unique(found: &mut Vec<PortInfo>, port: PortInfo)
    ensures
        infos(final(found)@) == merged_from(infos(old(found)@), port@, 0),
{
    let mut i: usize = 0;
    let n: usize = found.len();
    while i < n
        invariant
            i <= n == found@.len(),
            found@ == old(found)@,
            merged_from(infos(old(found)@), port@, 0) == merged_from(
                infos(old(found)@),
                port@,
                i as int,
            ),
        decreases n - i,
    {
        if text::same_text(found[i].path.as_str(), port.path.as_str()) {
            let ghost before = infos(found@);
            let old_label = found[i].label.clone();
            let label = if old_label.as_str().is_empty() {
                port.label
            } else {
                old_label
            };
            let entry = PortInfo {
                path: found[i].path.clone(),
                label,
                is_usb: found[i].is_usb || port.is_usb,
            };
            assert(entry@ =~= merged(before[i as int], port@));
            found.set(i, entry);
            assert(infos(found@) =~= before.update(i as int, merged(before[i as int], port@)));
            return;
        }
        i += 1;
    }
    found.push(port);
    assert(infos(found@) =~= infos(old(found)@).push(port@));
}

proof fn lemma_merge_keeps_distinct(found: Seq<PortInfoView>, port: PortInfoView, i: int)
    requires
        paths_distinct(found),
        0 <= i <= found.len(),
        forall|j: int| 0 <= j < i ==> (#[trigger] found[j]).path != port.path,
    ensures
        paths_distinct(merged_from(found, port, i)),
    decreases found.len() - i,
{
    if i < found.len() && found[i].path != port.path {
        lemma_merge_keeps_distinct(found, port, i + 1);
    }
}

/// Merging never lists a path twice.
pub proof fn merging_lists_no_path_twice(found: Seq<PortInfoView>, ports: Seq<PortInfoView>)
    requires
        paths_distinct(found),
    ensures
        paths_distinct(merged_all(found, ports)),
    decreases ports.len(),
{
    if ports.len() > 0 {
        merging_lists_no_path_twice(found, ports.drop_last());
        lemma_merge_keeps_distinct(merged_all(found, ports.drop_last()), ports.last(), 0);
    }
}

/// Lexicographic order of byte strings.
pub open spec fn bytes_less(a: Seq<u8>, b: Seq<u8>) -> bool
    decreases a.len(),
{
    if b.len() == 0 {
        false
    } else if a.len() == 0 {
        true
    } else {
        a[0] < b[0] || (a[0] == b[0] && bytes_less(a.skip(1), b.skip(1)))
    }
}

/// The order in which ports are listed: USB ports first, then by path.
pub open spec fn listed_before(a: PortInfoView, b: PortInfoView) -> bool {
    if a.is_usb != b.is_usb {
        a.is_usb
    } else {
        bytes_less(encode_utf8(a.path), encode_utf8(b.path))
    }
}

/// Whether every port comes before all that follow it.
pub open spec fn in_order(ports: Seq<PortInfoView>) -> bool {
    forall|i: int, j: int|
        0 <= i < j < ports.len() ==> listed_before(#[trigger] ports[i], #[trigger] ports[j])
}

proof fn lemma_bytes_less_irreflexive(a: Seq<u8>)
    ensures
        !bytes_less(a, a),
    decreases a.len(),
{
    if a.len() > 0 {
        lemma_bytes_less_irreflexive(a.skip(1));
    }
}

proof fn lemma_bytes_less_transitive(a: Seq<u8>, b: Seq<u8>, c: Seq<u8>)
    requires
        bytes_less(a, b),
        bytes_less(b, c),
    ensures
        bytes_less(a, c),
    decreases a.len(),
{
    if a.len() > 0 && b.len() > 0 && c.len() > 0 && a[0] == b[0] && b[0] == c[0] {
        lemma_bytes_less_transitive(a.skip(1), b.skip(1), c.skip(1));
    }
}

proof fn lemma_bytes_less_total(a: Seq<u8>, b: Seq<u8>)
    requires
        a != b,
    ensures
        bytes_less(a, b) || bytes_less(b, a),
    decreases a.len(),
{
    if a.len() > 0 && b.len() > 0 && a[0] == b[0] {
        assert(a =~= seq![a[0]] + a.skip(1));
        assert(b =~= seq![b[0]] + b.skip(1));
        lemma_bytes_less_total(a.skip(1), b.skip(1));
    } else if a.len() == 0 && b.len() == 0 {
        assert(a =~= b);
    }
}

proof fn lemma_listed_transitive(a: PortInfoView, b: PortInfoView, c: PortInfoView)
    requires
        listed_before(a, b),
        listed_before(b, c),
    ensures
        listed_before(a, c),
{
    if a.is_usb == b.is_usb && b.is_usb == c.is_usb {
        lemma_bytes_less_transitive(
            encode_utf8(a.path),
            encode_utf8(b.path),
            encode_utf8(c.path),
        );
    }
}

proof fn lemma_listed_total(a: PortInfoView, b: PortInfoView)
    requires
        a.path != b.path,
    ensures
        listed_before(a, b) || listed_before(b, a),
{
    encode_utf8_decode_utf8(a.path);
    encode_utf8_decode_utf8(b.path);
    if a.is_usb == b.is_usb {
        lemma_bytes_less_total(encode_utf8(a.path), encode_utf8(b.path));
    }
}

proof fn lemma_listed_asymmetric(a: PortInfoView, b: PortInfoView)
    requires
        listed_before(a, b),
    ensures
        !listed_before(b, a),
        a != b,
{
    if listed_before(b, a) {
        lemma_listed_transitive(a, b, a);
        lemma_bytes_less_irreflexive(encode_utf8(a.path));
    }
    lemma_bytes_less_irreflexive(encode_utf8(a.path));
}

/// There is only one way to list ports in order.
pub proof fn the_listing_order_is_unique(a: Seq<PortInfoView>, b: Seq<PortInfoView>)
    requires
        in_order(a),
        in_order(b),
        a.to_multiset() == b.to_multiset(),
    ensures
        a == b,
    decreases a.len(),
{
    broadcast use vstd::seq_lib::group_to_multiset_ensures;

    assert(a.to_multiset().len() == a.len());
    assert(b.to_multiset().len() == b.len());
    if a.len() == 0 {
        assert(a =~= b);
    } else {
        let x = a.last();
        let y = b.last();
        if x != y {
            assert(a[a.len() - 1] == x);
            assert(a.contains(x));
            assert(b.to_multiset().count(x) > 0);
            assert(b.contains(x));
            let i = choose|i: int| 0 <= i < b.len() && b[i] == x;
            assert(listed_before(b[i], b[b.len() - 1]));
            assert(b[b.len() - 1] == y);
            assert(b.contains(y));
            assert(a.to_multiset().count(y) > 0);
            assert(a.contains(y));
            let j = choose|j: int| 0 <= j < a.len() && a[j] == y;
            assert(listed_before(a[j], a[a.len() - 1]));
            lemma_listed_asymmetric(x, y);
        }
        assert(a.drop_last() =~= a.remove(a.len() - 1));
        assert(b.drop_last() =~= b.remove(b.len() - 1));
        the_listing_order_is_unique(a.drop_last(), b.drop_last());
        assert(a =~= a.drop_last().push(x));
        assert(b =~= b.drop_last().push(y));
    }
}

fn less_bytes(a: &[u8], b: &[u8]) -> (r: bool)
    ensures
        r == bytes_less(a@, b@),
{
    let mut i: usize = 0;
    assert(a@.skip(0) =~= a@);
    assert(b@.skip(0) =~= b@);
    while i < a.len() && i < b.len()
        invariant
            i <= a@.len(),
            i <= b@.len(),
            bytes_less(a@, b@) == bytes_less(a@.skip(i as int), b@.skip(i as int)),
        decreases a@.len() - i,
    {
        if a[i] != b[i] {
            return a[i] < b[i];
        }
        assert(a@.skip(i as int).skip(1) =~= a@.skip(i + 1));
        assert(b@.skip(i as int).skip(1) =~= b@.skip(i + 1));
        i += 1;
    }
    i < b.len()
}

fn comes_before(a: &PortInfo, b: &PortInfo) -> (r: bool)
    ensures
        r == listed_before(a@, b@),
{
    if a.is_usb != b.is_usb {
        a.is_usb
    } else {
        less_bytes(a.path.as_str().as_bytes(), b.path.as_str().as_bytes())
    }
}

fn insert_in_order(out: &mut Vec<PortInfo>, port: PortInfo)
    requires
        in_order(infos(old(out)@)),
        forall|i: int| 0 <= i < old(out)@.len() ==> (#[trigger] old(out)@[i])@.path != port@.path,
    ensures
        in_order(infos(final(out)@)),
        infos(final(out)@).to_multiset() == infos(old(out)@).to_multiset().insert(port@),
        forall|i: int|
            0 <= i < final(out)@.len() ==> (#[trigger] final(out)@[i])@ == port@ || (exists|j: int|
                0 <= j < old(out)@.len() && (#[trigger] old(out)@[j])@ == final(out)@[i]@),
{
    let mut k: usize = out.len();
    let ghost before = infos(out@);
    while k > 0 && !comes_before(&out[k - 1], &port)
        invariant
            k <= out@.len(),
            out@ == old(out)@,
            before == infos(out@),
            in_order(before),
            forall|i: int| 0 <= i < before.len() ==> (#[trigger] before[i]).path != port@.path,
            forall|i: int| k <= i < before.len() ==> listed_before(port@, #[trigger] before[i]),
        decreases k,
    {
        proof {
            assert(before[k - 1] == out@[k - 1]@);
            lemma_listed_total(before[k - 1], port@);
        }
        k -= 1;
    }
    out.insert(k, port);
    let ghost after = infos(out@);
    proof {
        assert(after =~= before.insert(k as int, port@));
        vstd::seq_lib::to_multiset_insert(before, k as int, port@);
        assert forall|i: int, j: int| 0 <= i < j < after.len() implies listed_before(
            #[trigger] after[i],
            #[trigger] after[j],
        ) by {
            if j < k {
                assert(after[i] == before[i] && after[j] == before[j]);
            } else if j == k {
                assert(after[i] == before[i]);
                assert(listed_before(before[k - 1], port@));
                if i < k - 1 {
                    lemma_listed_transitive(before[i], before[k - 1], port@);
                }
            } else if i == k {
                assert(after[j] == before[j - 1]);
            } else if i < k {
                assert(after[i] == before[i] && after[j] == before[j - 1]);
            } else {
                assert(after[i] == before[i - 1] && after[j] == before[j - 1]);
            }
        }
        assert forall|i: int| 0 <= i < out@.len() implies (#[trigger] out@[i])@ == port@ || (
        exists|j: int| 0 <= j < old(out)@.len() && (#[trigger] old(out)@[j])@ == out@[i]@) by {
            assert(after[i] == out@[i]@);
            if i < k {
                assert(old(out)@[i]@ == out@[i]@);
            } else if i > k {
                assert(old(out)@[i - 1]@ == out@[i]@);
            }
        }
    }
}

/// Whether a port is worth listing: no noise and, on macOS, no `tty.` device, which
/// is the same hardware as its callout twin.
pub open spec fn worth_listing(port: PortInfoView, macos: bool) -> bool {
    !noise(port.path) && !(macos && "/dev/tty."@.is_prefix_of(port.path))
}

/// The ports worth listing among `found`.
pub open spec fn kept_ports(found: Seq<PortInfoView>, macos: bool) -> Seq<PortInfoView>
    decreases found.len(),
{
    if found.len() == 0 {
        Seq::empty()
    } else if worth_listing(found.last(), macos) {
        kept_ports(found.drop_last(), macos).push(found.last())
    } else {
        kept_ports(found.drop_last(), macos)
    }
}

/// The entries of the ports that the system enumerates.
pub open spec fn detected_infos(ports: Seq<DetectedPort>) -> Seq<PortInfoView> {
    ports.map_values(|p: DetectedPort| p.info())
}

/// Everything found, one entry for each path.
pub open spec fn all_found(
    detected: Seq<DetectedPort>,
    scanned: Seq<PortInfo>,
) -> Seq<PortInfoView> {
    merged_all(merged_all(Seq::empty(), detected_infos(detected)), infos(scanned))
}

/// The ports to offer, from what the system enumerates and what a scan of its device
/// tree found: one entry for each path, without noise, USB ports first and then by
/// path.
pub fn list(detected: &[DetectedPort], scanned: &[PortInfo], macos: bool) -> (r: Vec<PortInfo>)
    ensures
        infos(r@).to_multiset() == kept_ports(all_found(detected@, scanned@), macos).to_multiset(),
        in_order(infos(r@)),
{
    let mut found: Vec<PortInfo> = Vec::new();
    let ghost dv = detected_infos(detected@);
    let ghost sv = infos(scanned@);
    let mut i: usize = 0;
    assert(infos(found@) =~= Seq::empty());
    assert(dv.take(0) =~= Seq::empty());
    while i < detected.len()
        invariant
            i <= detected@.len(),
            dv == detected_infos(detected@),
            infos(found@) == merged_all(Seq::empty(), dv.take(i as int)),
        decreases detected@.len() - i,
    {
        push_unique(&mut found, detected[i].to_info());
        assert(dv.take(i + 1).drop_last() =~= dv.take(i as int));
        i += 1;
    }
    assert(dv.take(dv.len() as int) =~= dv);
    assert(sv.take(0) =~= Seq::empty());
    let ghost base = infos(found@);
    let mut k: usize = 0;
    while k < scanned.len()
        invariant
            k <= scanned@.len(),
            sv == infos(scanned@),
            infos(found@) == merged_all(base, sv.take(k as int)),
        decreases scanned@.len() - k,
    {
        push_unique(&mut found, scanned[k].clone());
        assert(sv.take(k + 1).drop_last() =~= sv.take(k as int));
        k += 1;
    }
    assert(sv.take(sv.len() as int) =~= sv);
    proof {
        merging_lists_no_path_twice(Seq::empty(), dv);
        merging_lists_no_path_twice(base, sv);
    }
    let ghost all = infos(found@);
    let mut out: Vec<PortInfo> = Vec::new();
    assert(infos(out@) =~= Seq::empty());
    assert(kept_ports(all, macos).to_multiset() =~= kept_ports(all, macos).to_multiset().add(
        infos(out@).to_multiset(),
    )) by {
        broadcast use vstd::seq_lib::group_to_multiset_ensures;

        assert(infos(out@).to_multiset().len() == 0);
        assert(infos(out@).to_multiset() =~= vstd::multiset::Multiset::empty());
    }
    while found.len() > 0
        invariant
            paths_distinct(infos(found@)),
            in_order(infos(out@)),
            kept_ports(all, macos).to_multiset() == kept_ports(
                infos(found@),
                macos,
            ).to_multiset().add(infos(out@).to_multiset()),
            forall|i: int, j: int|
                0 <= i < found@.len() && 0 <= j < out@.len() ==> (#[trigger] found@[i])@.path != (
                #[trigger] out@[j])@.path,
        decreases found@.len(),
    {
        let ghost before = infos(found@);
        let ghost placed = infos(out@);
        let ghost out0 = out@;
        let ghost found0 = found@;
        match found.pop() {
            Some(p) => {
                assert(infos(found@) =~= before.drop_last());
                assert(before.last() == p@);
                assert forall|i: int| 0 <= i < found@.len() implies (
                #[trigger] found@[i])@.path != p@.path by {
                    assert(before[i] == found@[i]@);
                    assert(before[before.len() - 1] == p@);
                }
                assert(found0[found0.len() - 1] == p);
                let drop_tty = macos && text::after_prefix(p.path.as_str(), "/dev/tty.").is_some();
                let ghost pv = p@;
                if !is_noise(p.path.as_str()) && !drop_tty {
                    insert_in_order(&mut out, p);
                    proof {
                        broadcast use vstd::seq_lib::group_to_multiset_ensures;

                        let rest = kept_ports(infos(found@), macos);
                        assert(kept_ports(before, macos).to_multiset()
                            =~= rest.to_multiset().insert(pv));
                        assert(rest.to_multiset().insert(pv).add(placed.to_multiset())
                            =~= rest.to_multiset().add(placed.to_multiset().insert(pv)));
                    }
                }
                assert forall|i: int, j: int|
                    0 <= i < found@.len() && 0 <= j < out@.len() implies (
                #[trigger] found@[i])@.path != (#[trigger] out@[j])@.path by {
                    assert(found@[i] == found0[i]);
                    if out@[j]@ != pv {
                        let m = choose|m: int| 0 <= m < out0.len() && (#[trigger] out0[m])@ == out@[j]@;
                        assert(found0[i]@.path != out0[m]@.path);
                    }
                }
            },
            None => {},
        }
    }
    assert(kept_ports(infos(found@), macos) =~= Seq::empty());
    proof {
        broadcast use vstd::seq_lib::group_to_multiset_ensures;

        let none = kept_ports(infos(found@), macos).to_multiset();
        assert(none.len() == 0);
        assert(none =~= vstd::multiset::Multiset::empty());
        assert(none.add(infos(out@).to_multiset()) =~= infos(out@).to_multiset());
    }
    out
}

/// The entries for the names under `/dev/serial/by-id` and the nodes they lead to.
/// All of them are USB devices.
pub open spec fn by_id_infos(links: Seq<(String, String)>) -> Seq<PortInfoView> {
    links.map_values(
        |l: (String, String)| PortInfoView { path: l.1@, label: l.0@, is_usb: true },
    )
}

/// The entry for a terminal device of the given name.
pub open spec fn tty_info(name: Seq<char>) -> PortInfoView {
    PortInfoView {
        path: "/dev/"@ + name,
        label: Seq::empty(),
        is_usb: usb_named("/dev/"@ + name),
    }
}

/// The entries for the terminal devices that are backed by hardware and have a node.
pub open spec fn tty_infos(entries: Seq<TtyEntry>) -> Seq<PortInfoView>
    decreases entries.len(),
{
    if entries.len() == 0 {
        Seq::empty()
    } else if entries.last().has_device && entries.last().node_exists {
        tty_infos(entries.drop_last()).push(tty_info(entries.last().name@))
    } else {
        tty_infos(entries.drop_last())
    }
}

/// The entries for the callout devices among the names in `/dev`.
pub open spec fn callout_infos(names: Seq<String>) -> Seq<PortInfoView>
    decreases names.len(),
{
    if names.len() == 0 {
        Seq::empty()
    } else if "cu."@.is_prefix_of(names.last()@) {
        callout_infos(names.drop_last()).push(tty_info(names.last()@))
    } else {
        callout_infos(names.drop_last())
    }
}

/// The path under `/dev` of a device node.
pub fn node_path(name: &str) -> (s: String)
    ensures
        s@ == "/dev/"@ + name@,
{
    let mut s = "/dev/".to_owned();
    s.append(name);
    s
}

fn tty_port(name: &str) -> (p: PortInfo)
    ensures
        p@ == tty_info(name@),
{
    let path = node_path(name);
    let is_usb = looks_like_usb(path.as_str());
    PortInfo { path, label: String::new(), is_usb }
}

/// What a scan of the device tree found on Linux: the links under
/// `/dev/serial/by-id`, which carry human-readable names, and then the terminal
/// devices.
pub fn scan_dev(links: &[(String, String)], entries: &[TtyEntry]) -> (out: Vec<PortInfo>)
    ensures
        infos(out@) == by_id_infos(links@) + tty_infos(entries@),
{
    let mut out: Vec<PortInfo> = Vec::new();
    let ghost lv = by_id_infos(links@);
    let mut i: usize = 0;
    assert(infos(out@) =~= lv.take(0));
    while i < links.len()
        invariant
            i <= links@.len(),
            lv == by_id_infos(links@),
            infos(out@) == lv.take(i as int),
        decreases links@.len() - i,
    {
        let ghost before = infos(out@);
        out.push(
            PortInfo { path: links[i].1.clone(), label: links[i].0.clone(), is_usb: true },
        );
        assert(infos(out@) =~= before.push(lv[i as int]));
        i += 1;
        assert(infos(out@) =~= lv.take(i as int));
    }
    assert(lv.take(lv.len() as int) =~= lv);
    let mut k: usize = 0;
    assert(entries@.take(0) =~= Seq::empty());
    assert(lv + tty_infos(entries@.take(0)) =~= lv);
    while k < entries.len()
        invariant
            k <= entries@.len(),
            infos(out@) == lv + tty_infos(entries@.take(k as int)),
        decreases entries@.len() - k,
    {
        let ghost before = infos(out@);
        assert(entries@.take(k + 1).drop_last() =~= entries@.take(k as int));
        if entries[k].has_device && entries[k].node_exists {
            out.push(tty_port(entries[k].name.as_str()));
            assert(infos(out@) =~= before.push(tty_info(entries@[k as int].name@)));
            assert(infos(out@) =~= lv + tty_infos(entries@.take(k + 1)));
        }
        k += 1;
    }
    assert(entries@.take(entries@.len() as int) =~= entries@);
    out
}

/// What a scan of `/dev` found on macOS: its callout devices.
pub fn scan_callout(names: &[String]) -> (out: Vec<PortInfo>)
    ensures
        infos(out@) == callout_infos(names@),
{
    let mut out: Vec<PortInfo> = Vec::new();
    let mut k: usize = 0;
    assert(names@.take(0) =~= Seq::empty());
    assert(infos(out@) =~= Seq::empty());
    while k < names.len()
        invariant
            k <= names@.len(),
            infos(out@) == callout_infos(names@.take(k as int)),
        decreases names@.len() - k,
    {
        let ghost before = infos(out@);
        assert(names@.take(k + 1).drop_last() =~= names@.take(k as int));
        if text::after_prefix(names[k].as_str(), "cu.").is_some() {
            out.push(tty_port(names[k].as_str()));
            assert(infos(out@) =~= before.push(tty_info(names@[k as int]@)));
        }
        k += 1;
    }
    assert(names@.take(names@.len() as int) =~= names@);
    out
}

/// The views of pairs of a device identity and the path it sits on.
pub open spec fn pairs(entries: Seq<(String, String)>) -> Seq<(Seq<char>, Seq<char>)> {
    entries.map_values(|e: (String, String)| (e.0@, e.1@))
}

/// The identities of the detected ports that have one.
pub open spec fn known_identities(ports: Seq<DetectedPort>) -> Seq<(Seq<char>, Seq<char>)>
    decreases ports.len(),
{
    if ports.len() == 0 {
        Seq::empty()
    } else {
        match ports.last().identity() {
            Some(e) => known_identities(ports.drop_last()).push(e),
            None => known_identities(ports.drop_last()),
        }
    }
}

/// The identity of the first entry from `i` on whose path is `path`.
pub open spec fn identity_from(
    entries: Seq<(Seq<char>, Seq<char>)>,
    path: Seq<char>,
    i: int,
) -> Option<Seq<char>>
    decreases entries.len() - i,
{
    if i >= entries.len() {
        None
    } else if entries[i].1 == path {
        Some(entries[i].0)
    } else {
        identity_from(entries, path, i + 1)
    }
}

/// The path of the first entry from `i` on whose identity is `identity`.
pub open spec fn path_from(
    entries: Seq<(Seq<char>, Seq<char>)>,
    identity: Seq<char>,
    i: int,
) -> Option<Seq<char>>
    decreases entries.len() - i,
{
    if i >= entries.len() {
        None
    } else if entries[i].0 == identity {
        Some(entries[i].1)
    } else {
        path_from(entries, identity, i + 1)
    }
}

/// A device and the port it sits on, for each detected USB port that reports a serial
/// number.
pub fn identities(ports: &[DetectedPort]) -> (r: Vec<(String, String)>)
    ensures
        pairs(r@) == known_identities(ports@),
{
    let mut r: Vec<(String, String)> = Vec::new();
    let mut k: usize = 0;
    assert(ports@.take(0) =~= Seq::empty());
    assert(pairs(r@) =~= Seq::empty());
    while k < ports.len()
        invariant
            k <= ports@.len(),
            pairs(r@) == known_identities(ports@.take(k as int)),
        decreases ports@.len() - k,
    {
        let ghost before = pairs(r@);
        assert(ports@.take(k + 1).drop_last() =~= ports@.take(k as int));
        match &ports[k].kind {
            PortKind::Usb(u) => match &u.serial_number {
                Some(serial) => {
                    let mut id = "usb-".to_owned();
                    text::push_hex4(&mut id, u.vid);
                    id.append(":");
                    text::push_hex4(&mut id, u.pid);
                    id.append("-");
                    id.append(serial.as_str());
                    r.push((id, ports[k].path.clone()));
                    assert(pairs(r@) =~= before.push(ports@[k as int].identity()->0));
                },
                None => {},
            },
            _ => {},
        }
        k += 1;
    }
    assert(ports@.take(ports@.len() as int) =~= ports@);
    r
}

/// The identity of the device on a port.
pub fn identity_of(entries: &[(String, String)], path: &str) -> (r: Option<String>)
    ensures
        opt_text(r) == identity_from(pairs(entries@), path@, 0),
{
    let mut i: usize = 0;
    while i < entries.len()
        invariant
            i <= entries@.len(),
            identity_from(pairs(entries@), path@, 0) == identity_from(
                pairs(entries@),
                path@,
                i as int,
            ),
        decreases entries@.len() - i,
    {
        if text::same_text(entries[i].1.as_str(), path) {
            return Some(entries[i].0.clone());
        }
        i += 1;
    }
    None
}

/// The port that a device sits on.
pub fn path_of(entries: &[(String, String)], identity: &str) -> (r: Option<String>)
    ensures
        opt_text(r) == path_from(pairs(entries@), identity@, 0),
{
    let mut i: usize = 0;
    while i < entries.len()
        invariant
            i <= entries@.len(),
            path_from(pairs(entries@), identity@, 0) == path_from(
                pairs(entries@),
                identity@,
                i as int,
            ),
        decreases entries@.len() - i,
    {
        if text::same_text(entries[i].0.as_str(), identity) {
            return Some(entries[i].1.clone());
        }
        i += 1;
    }
    None
}

/// A stable name for the device behind a port. Port names are not identity:
/// `/dev/ttyACM0` is whichever board enumerated first, and a reset can hand the name
/// to something else entirely. Vendor, product and serial do identify it. `resolved`
/// is the path with its links followed, where that succeeded.
pub fn device_identity(
    entries: &[(String, String)],
    path: &str,
    resolved: Option<&str>,
) -> (r: Option<String>)
    ensures
        opt_text(r) == identity_from(
            pairs(entries@),
            match resolved {
                Some(p) => p@,
                None => path@,
            },
            0,
        ),
{
    match resolved {
        Some(p) => identity_of(entries, p),
        None => identity_of(entries, path),
    }
}

/// The port that device currently sits on, if it is plugged in at all.
pub fn path_for_identity(entries: &[(String, String)], identity: &str) -> (r: Option<String>)
    ensures
        opt_text(r) == path_from(pairs(entries@), identity@, 0),
{
    path_of(entries, identity)
}

proof fn lemma_path_from(entries: Seq<(Seq<char>, Seq<char>)>, identity: Seq<char>, i: int)
    requires
        0 <= i,
    ensures
        path_from(entries, identity, i) is None <==> (forall|j: int|
            i <= j < entries.len() ==> (#[trigger] entries[j]).0 != identity),
        path_from(entries, identity, i) matches Some(p) ==> exists|j: int|
            i <= j < entries.len() && #[trigger] entries[j] == (identity, p),
    decreases entries.len() - i,
{
    if i < entries.len() {
        if entries[i].0 == identity {
            assert(entries[i] == (identity, entries[i].1));
        } else {
            lemma_path_from(entries, identity, i + 1);
        }
    }
}

proof fn lemma_identity_from(entries: Seq<(Seq<char>, Seq<char>)>, path: Seq<char>, i: int)
    requires
        0 <= i,
    ensures
        identity_from(entries, path, i) is None <==> (forall|j: int|
            i <= j < entries.len() ==> (#[trigger] entries[j]).1 != path),
        identity_from(entries, path, i) matches Some(id) ==> exists|j: int|
            i <= j < entries.len() && #[trigger] entries[j] == (id, path),
    decreases entries.len() - i,
{
    if i < entries.len() {
        if entries[i].1 == path {
            assert(entries[i] == (entries[i].0, path));
        } else {
            lemma_identity_from(entries, path, i + 1);
        }
    }
}

/// An identity never resolves to another device: the path found carries that very
/// identity, and a device that is not plugged in resolves to nothing.
pub proof fn an_identity_resolves_to_its_own_device(
    entries: Seq<(Seq<char>, Seq<char>)>,
    identity: Seq<char>,
)
    ensures
        path_from(entries, identity, 0) matches Some(p) ==> entries.contains((identity, p)),
        path_from(entries, identity, 0) is None <==> !(exists|j: int|
            0 <= j < entries.len() && (#[trigger] entries[j]).0 == identity),
{
    lemma_path_from(entries, identity, 0);
}

/// Every port that is listed with an identity is found to have one, wherever in the
/// list it stands, and no other port is: the identity found stands next to that very
/// path.
pub proof fn a_listed_port_has_its_identity(
    entries: Seq<(Seq<char>, Seq<char>)>,
    path: Seq<char>,
)
    ensures
        identity_from(entries, path, 0) is None <==> !(exists|j: int|
            0 <= j < entries.len() && (#[trigger] entries[j]).1 == path),
        identity_from(entries, path, 0) matches Some(id) ==> entries.contains((id, path)),
{
    lemma_identity_from(entries, path, 0);
}

/// Where several entries fit, the one that comes first counts, in both directions:
/// what stands in front decides, and what is added behind changes nothing.
pub proof fn the_first_entry_counts(
    front: Seq<(Seq<char>, Seq<char>)>,
    behind: Seq<(Seq<char>, Seq<char>)>,
    path: Seq<char>,
    identity: Seq<char>,
)
    ensures
        identity_from(front + behind, path, 0) == match identity_from(front, path, 0) {
            Some(id) => Some(id),
            None => identity_from(behind, path, 0),
        },
        path_from(front + behind, identity, 0) == match path_from(front, identity, 0) {
            Some(p) => Some(p),
            None => path_from(behind, identity, 0),
        },
{
    lemma_first_entry(front, behind, path, identity, 0);
}

proof fn lemma_behind(
    front: Seq<(Seq<char>, Seq<char>)>,
    behind: Seq<(Seq<char>, Seq<char>)>,
    path: Seq<char>,
    identity: Seq<char>,
    i: int,
)
    requires
        0 <= i <= behind.len(),
    ensures
        identity_from(front + behind, path, front.len() + i) == identity_from(behind, path, i),
        path_from(front + behind, identity, front.len() + i) == path_from(behind, identity, i),
    decreases behind.len() - i,
{
    if i < behind.len() {
        assert((front + behind)[front.len() + i] == behind[i]);
        lemma_behind(front, behind, path, identity, i + 1);
    }
}

proof fn lemma_first_entry(
    front: Seq<(Seq<char>, Seq<char>)>,
    behind: Seq<(Seq<char>, Seq<char>)>,
    path: Seq<char>,
    identity: Seq<char>,
    i: int,
)
    requires
        0 <= i <= front.len(),
    ensures
        identity_from(front + behind, path, i) == match identity_from(front, path, i) {
            Some(id) => Some(id),
            None => identity_from(behind, path, 0),
        },
        path_from(front + behind, identity, i) == match path_from(front, identity, i) {
            Some(p) => Some(p),
            None => path_from(behind, identity, 0),
        },
    decreases front.len() - i,
{
    if i < front.len() {
        assert((front + behind)[i] == front[i]);
        lemma_first_entry(front, behind, path, identity, i + 1);
    } else {
        lemma_behind(front, behind, path, identity, 0);
    }
}

/// Identity maps both ways: a port's device is found on that port again, as long as
/// no two entries share an identity.
pub proof fn identity_leads_back_to_the_port(
    entries: Seq<(Seq<char>, Seq<char>)>,
    path: Seq<char>,
)
    requires
        forall|i: int, j: int|
            0 <= i < j < entries.len() ==> (#[trigger] entries[i]).0 != (#[trigger] entries[j]).0,
    ensures
        identity_from(entries, path, 0) matches Some(id) ==> path_from(entries, id, 0) == Some(
            path,
        ),
{
    lemma_identity_from(entries, path, 0);
    if let Some(id) = identity_from(entries, path, 0) {
        let j = choose|j: int| 0 <= j < entries.len() && #[trigger] entries[j] == (id, path);
        assert(entries[j].0 == id);
        lemma_path_from(entries, id, 0);
        let p = path_from(entries, id, 0)->0;
        let k = choose|k: int| 0 <= k < entries.len() && #[trigger] entries[k] == (id, p);
        assert(entries[k].0 == id);
    }
}

/// The longest path, in bytes.
pub open spec fn path_width(ports: Seq<PortInfoView>) -> nat
    decreases ports.len(),
{
    if ports.len() == 0 {
        0
    } else {
        let w = path_width(ports.drop_last());
        let n = encode_utf8(ports.last().path).len();
        if n > w {
            n
        } else {
            w
        }
    }
}

/// One line of the port list.
pub open spec fn list_line(port: PortInfoView, width: nat) -> Seq<char> {
    (if port.is_usb {
        "usb"@
    } else {
        "   "@
    }) + "  "@ + text::left_aligned(port.path, width) + (if port.label.len() == 0 {
        Seq::empty()
    } else {
        "  "@ + port.label
    }) + "\n"@
}

/// The lines of the port list.
pub open spec fn list_lines(ports: Seq<PortInfoView>, width: nat) -> Seq<char>
    decreases ports.len(),
{
    if ports.len() == 0 {
        Seq::empty()
    } else {
        list_lines(ports.drop_last(), width) + list_line(ports.last(), width)
    }
}

/// The port list as it is printed.
pub fn print_list(ports: &[PortInfo]) -> (r: String)
    ensures
        r@ == (if ports@.len() == 0 {
            "no serial ports found\n"@
        } else {
            list_lines(infos(ports@), path_width(infos(ports@)))
        }),
{
    if ports.len() == 0 {
        return "no serial ports found\n".to_owned();
    }
    let ghost pv = infos(ports@);
    let mut width: usize = 0;
    let mut i: usize = 0;
    assert(pv.take(0) =~= Seq::empty());
    while i < ports.len()
        invariant
            i <= ports@.len(),
            pv == infos(ports@),
            width == path_width(pv.take(i as int)),
        decreases ports@.len() - i,
    {
        assert(pv.take(i + 1).drop_last() =~= pv.take(i as int));
        let n = ports[i].path.as_str().as_bytes().len();
        if n > width {
            width = n;
        }
        i += 1;
    }
    assert(pv.take(pv.len() as int) =~= pv);
    let mut r = String::new();
    let mut k: usize = 0;
    while k < ports.len()
        invariant
            k <= ports@.len(),
            pv == infos(ports@),
            r@ == list_lines(pv.take(k as int), width as nat),
        decreases ports@.len() - k,
    {
        let ghost before = r@;
        assert(pv.take(k + 1).drop_last() =~= pv.take(k as int));
        let p = &ports[k];
        r.append(
            if p.is_usb {
                "usb"
            } else {
                "   "
            },
        );
        r.append("  ");
        text::push_left_aligned(&mut r, p.path.as_str(), width);
        if !p.label.as_str().is_empty() {
            r.append("  ");
            r.append(p.label.as_str());
        }
        r.append("\n");
        assert(r@ =~= before + list_line(pv[k as int], width as nat));
        k += 1;
    }
    r
}

/// How a port is settled on.
#[derive(Debug)]
pub enum Choice {
    /// This port, and a remark to print if it is not the one asked for
    Port { path: String, remark: Option<String> },
    /// The user has to pick one of these
    Ask { menu: String, paths: Vec<String> },
}

/// Why no port was settled on.
#[derive(Debug, PartialEq, Eq)]
pub enum ChooseError {
    NoPorts,
    /// There are ports, but none on USB; these are their names
    NoUsbPort(String),
    NotANumber(String),
    OutOfRange,
}

impl ChooseError {
    /// The sentence that explains the error.
    pub open spec fn sentence(self) -> Seq<char> {
        match self {
            ChooseError::NoPorts =>
                "no serial ports found; plug in a board or pass a path explicitly"@,
            ChooseError::NoUsbPort(names) =>
                "no USB serial port found; pass one of these explicitly: "@ + names@,
            ChooseError::NotANumber(s) => "not a number: "@ + text::debug_str(s@),
            ChooseError::OutOfRange => "choice out of range"@,
        }
    }

    pub fn message(&self) -> (s: String)
        ensures
            s@ == self.sentence(),
    {
        match self {
            ChooseError::NoPorts =>
                "no serial ports found; plug in a board or pass a path explicitly".to_owned(),
            ChooseError::NoUsbPort(names) => {
                let mut s = "no USB serial port found; pass one of these explicitly: ".to_owned();
                s.append(names.as_str());
                s
            },
            ChooseError::NotANumber(a) => {
                let mut s = "not a number: ".to_owned();
                s.append(text::quoted(a.as_str()).as_str());
                s
            },
            ChooseError::OutOfRange => "choice out of range".to_owned(),
        }
    }
}

/// The paths of `ports`.
pub open spec fn all_paths(ports: Seq<PortInfoView>) -> Seq<Seq<char>> {
    ports.map_values(|p: PortInfoView| p.path)
}

/// The USB ports among `ports`.
pub open spec fn usb_ports(ports: Seq<PortInfoView>) -> Seq<PortInfoView>
    decreases ports.len(),
{
    if ports.len() == 0 {
        Seq::empty()
    } else if ports.last().is_usb {
        usb_ports(ports.drop_last()).push(ports.last())
    } else {
        usb_ports(ports.drop_last())
    }
}

/// The numbered lines of the menu.
pub open spec fn menu_lines(ports: Seq<PortInfoView>) -> Seq<char>
    decreases ports.len(),
{
    if ports.len() == 0 {
        Seq::empty()
    } else {
        menu_lines(ports.drop_last()) + "  "@ + text::decimal(ports.len()) + ") "@
            + ports.last().path + (if ports.last().label.len() == 0 {
            Seq::empty()
        } else {
            "  "@ + ports.last().label
        }) + "\n"@
    }
}

/// The menu and the question under it.
pub open spec fn menu_text(ports: Seq<PortInfoView>) -> Seq<char> {
    "Multiple ports found:\n"@ + menu_lines(ports) + "Select [1-"@ + text::decimal(ports.len())
        + "]: "@
}

/// The remark when a callout device takes the place of the port asked for.
pub open spec fn callout_remark(path: Seq<char>, cu: Seq<char>) -> Seq<char> {
    "note: using "@ + cu + " instead of "@ + path + " (tty devices block until DCD)"@
}

/// Picks the port to open: the one given on the command line, the only USB port
/// present, or an interactive choice. Only USB ports are auto-selected: built-in and
/// Bluetooth serial devices are almost never what you meant, and opening one wastes
/// your time.
pub fn choose_port(
    requested: Option<&str>,
    twin_exists: bool,
    ports: &[PortInfo],
) -> (r: Result<Choice, ChooseError>)
    ensures
        ({
            let usb = usb_ports(infos(ports@));
            match requested {
                Some(p) => match (if twin_exists {
                    callout(p@)
                } else {
                    None
                }) {
                    Some(cu) => r matches Ok(Choice::Port { path, remark: Some(m) }) && path@ == cu
                        && m@ == callout_remark(p@, cu),
                    None => r matches Ok(Choice::Port { path, remark: None }) && path@ == p@,
                },
                None => if usb.len() == 1 {
                    r matches Ok(Choice::Port { path, remark: None }) && path@ == usb[0].path
                } else if usb.len() > 1 {
                    r matches Ok(Choice::Ask { menu, paths }) && menu@ == menu_text(usb)
                        && text::texts(paths@) == all_paths(usb)
                } else if ports@.len() == 0 {
                    r matches Err(ChooseError::NoPorts)
                } else {
                    r matches Err(ChooseError::NoUsbPort(names)) && names@ == text::joined(
                        all_paths(infos(ports@)),
                        ", "@,
                    )
                },
            }
        }),
{
    if let Some(p) = requested {
        match prefer_callout(p, twin_exists) {
            Some(cu) => {
                let mut m = "note: using ".to_owned();
                m.append(cu.as_str());
                m.append(" instead of ");
                m.append(p);
                m.append(" (tty devices block until DCD)");
                return Ok(Choice::Port { path: cu, remark: Some(m) });
            },
            None => {
                return Ok(Choice::Port { path: p.to_owned(), remark: None });
            },
        }
    }
    let ghost pv = infos(ports@);
    let mut paths: Vec<String> = Vec::new();
    let mut names: Vec<String> = Vec::new();
    let mut menu = "Multiple ports found:\n".to_owned();
    let ghost head = menu@;
    let mut i: usize = 0;
    assert(pv.take(0) =~= Seq::empty());
    assert(text::texts(paths@) =~= all_paths(usb_ports(pv.take(0))));
    assert(text::texts(names@) =~= all_paths(pv.take(0)));
    assert(menu@ =~= head + menu_lines(usb_ports(pv.take(0))));
    while i < ports.len()
        invariant
            i <= ports@.len(),
            pv == infos(ports@),
            usb_ports(pv.take(i as int)).len() == paths@.len(),
            paths@.len() <= i,
            text::texts(paths@) == all_paths(usb_ports(pv.take(i as int))),
            text::texts(names@) == all_paths(pv.take(i as int)),
            menu@ == head + menu_lines(usb_ports(pv.take(i as int))),
        decreases ports@.len() - i,
    {
        let p = &ports[i];
        let ghost seen = pv.take(i as int);
        let ghost usb = usb_ports(seen);
        let ghost old_paths = text::texts(paths@);
        let ghost old_names = text::texts(names@);
        let ghost old_menu = menu@;
        assert(pv.take(i + 1).drop_last() =~= seen);
        assert(pv.take(i + 1) =~= seen.push(p@));
        names.push(p.path.clone());
        assert(text::texts(names@) =~= old_names.push(p@.path));
        assert(all_paths(seen.push(p@)) =~= all_paths(seen).push(p@.path));
        if p.is_usb {
            paths.push(p.path.clone());
            assert(text::texts(paths@) =~= old_paths.push(p@.path));
            assert(all_paths(usb.push(p@)) =~= all_paths(usb).push(p@.path));
            menu.append("  ");
            text::push_decimal(&mut menu, paths.len() as u64);
            menu.append(") ");
            menu.append(p.path.as_str());
            if !p.label.as_str().is_empty() {
                menu.append("  ");
                menu.append(p.label.as_str());
            }
            menu.append("\n");
            assert(usb.push(p@).drop_last() =~= usb);
            assert(menu@ =~= head + menu_lines(usb.push(p@)));
        }
        i += 1;
    }
    assert(pv.take(pv.len() as int) =~= pv);
    if paths.len() == 1 {
        let path = paths[0].clone();
        assert(text::texts(paths@)[0] == paths@[0]@);
        assert(all_paths(usb_ports(pv))[0] == usb_ports(pv)[0].path);
        return Ok(Choice::Port { path, remark: None });
    }
    if paths.len() == 0 {
        if ports.len() == 0 {
            return Err(ChooseError::NoPorts);
        }
        return Err(ChooseError::NoUsbPort(text::join(names.as_slice(), ", ")));
    }
    menu.append("Select [1-");
    text::push_decimal(&mut menu, paths.len() as u64);
    menu.append("]: ");
    assert(menu@ =~= menu_text(usb_ports(pv)));
    Ok(Choice::Ask { menu, paths })
}

/// The port that the answer to the menu names.
pub fn pick(answer: &str, paths: &[String]) -> (r: Result<String, ChooseError>)
    ensures
        match text::parsed_usize(text::trimmed(answer@)) {
            None => r matches Err(ChooseError::NotANumber(s)) && s@ == text::trimmed(answer@),
            Some(n) => if 1 <= n <= paths@.len() {
                r matches Ok(p) && p@ == paths@[n - 1]@
            } else {
                r matches Err(ChooseError::OutOfRange)
            },
        },
{
    let answer = text::trim(answer);
    match text::parse_usize(answer.as_str()) {
        None => Err(ChooseError::NotANumber(answer)),
        Some(n) => if n < 1 || n > paths.len() {
            Err(ChooseError::OutOfRange)
        } else {
            Ok(paths[n - 1].clone())
        },
    }
}

/// A path is named like a USB serial port wherever in its last part one of the usual
/// driver names stands, and whatever the directory is.
pub proof fn driver_names_make_a_usb_port(
    dir: Seq<char>,
    front: Seq<char>,
    back: Seq<char>,
    name: Seq<char>,
)
    requires
        !front.contains('/'),
        !back.contains('/'),
        name == "usbmodem"@ || name == "usbserial"@ || name == "wchusbserial"@ || name
            == "SLAB_USBtoUART"@ || name == "ttyUSB"@ || name == "ttyACM"@ || name
            == "usbmodemserial"@,
    ensures
        usb_named(dir + seq!['/'] + (front + name + back)),
        usb_named(front + name + back),
{
    reveal_strlit("usbmodem");
    reveal_strlit("usbserial");
    reveal_strlit("wchusbserial");
    reveal_strlit("SLAB_USBtoUART");
    reveal_strlit("ttyUSB");
    reveal_strlit("ttyACM");
    reveal_strlit("usbmodemserial");
    let l = front + name + back;
    assert forall|i: int| 0 <= i < l.len() implies l[i] != '/' by {
        if i < front.len() {
            assert(front.contains(front[i]));
        } else if i >= front.len() + name.len() {
            assert(back.contains(back[i - front.len() - name.len()]));
        }
    }
    text::a_path_ends_with_its_name(dir, l);
    text::a_text_is_found_wherever_it_stands(front, name, back, l);
}

/// A path whose last part holds neither `usb` in lower or upper case nor `ttyACM` is
/// not named like a USB serial port.
pub proof fn other_names_make_none(path: Seq<char>)
    requires
        usb_named(path),
    ensures
        text::occurs("usb"@, text::leaf(path)) || text::occurs("USB"@, text::leaf(path))
            || text::occurs("ttyACM"@, text::leaf(path)),
{
    reveal_strlit("usb");
    reveal_strlit("USB");
    let l = text::leaf(path);
    if text::occurs("usbmodem"@, l) {
        reveal_strlit("usbmodem");
        lemma_part_occurs("usbmodem"@, l, 0, 3);
        assert("usbmodem"@.subrange(0, 3) =~= "usb"@);
    } else if text::occurs("usbserial"@, l) {
        reveal_strlit("usbserial");
        lemma_part_occurs("usbserial"@, l, 0, 3);
        assert("usbserial"@.subrange(0, 3) =~= "usb"@);
    } else if text::occurs("wchusbserial"@, l) {
        reveal_strlit("wchusbserial");
        lemma_part_occurs("wchusbserial"@, l, 3, 6);
        assert("wchusbserial"@.subrange(3, 6) =~= "usb"@);
    } else if text::occurs("SLAB_USBtoUART"@, l) {
        reveal_strlit("SLAB_USBtoUART");
        lemma_part_occurs("SLAB_USBtoUART"@, l, 5, 8);
        assert("SLAB_USBtoUART"@.subrange(5, 8) =~= "USB"@);
    } else if text::occurs("ttyUSB"@, l) {
        reveal_strlit("ttyUSB");
        lemma_part_occurs("ttyUSB"@, l, 3, 6);
        assert("ttyUSB"@.subrange(3, 6) =~= "USB"@);
    } else if text::occurs("usbmodemserial"@, l) {
        reveal_strlit("usbmodemserial");
        lemma_part_occurs("usbmodemserial"@, l, 0, 3);
        assert("usbmodemserial"@.subrange(0, 3) =~= "usb"@);
    }
}

proof fn lemma_part_occurs(needle: Seq<char>, hay: Seq<char>, from: int, to: int)
    requires
        text::occurs(needle, hay),
        0 <= from <= to <= needle.len(),
    ensures
        text::occurs(needle.subrange(from, to), hay),
{
    let i = choose|i: int|
        0 <= i <= hay.len() - needle.len() && #[trigger] hay.subrange(i, i + needle.len())
            == needle;
    let part = needle.subrange(from, to);
    assert(hay.subrange(i + from, i + from + part.len()) =~= part);
}

/// Noise is known by its last part alone, whatever the directory is: the three ports
/// that macOS always has, each under both of its names, and no other.
pub proof fn noise_is_known_by_name(dir: Seq<char>, name: Seq<char>)
    requires
        !name.contains('/'),
    ensures
        noise(dir + seq!['/'] + name) <==> exists|kind: Seq<char>, port: Seq<char>|
            (kind == "cu."@ || kind == "tty."@) && (port == "Bluetooth-Incoming-Port"@ || port
                == "debug-console"@ || port == "wlan-debug"@) && name == #[trigger] (kind + port),
        noise(dir + seq!['/'] + name) == noise(name),
{
    text::a_path_ends_with_its_name(dir, name);
    reveal_strlit("cu.");
    reveal_strlit("tty.");
    reveal_strlit("Bluetooth-Incoming-Port");
    reveal_strlit("debug-console");
    reveal_strlit("wlan-debug");
    reveal_strlit("cu.Bluetooth-Incoming-Port");
    reveal_strlit("tty.Bluetooth-Incoming-Port");
    reveal_strlit("cu.debug-console");
    reveal_strlit("tty.debug-console");
    reveal_strlit("cu.wlan-debug");
    reveal_strlit("tty.wlan-debug");
    assert("cu."@ + "Bluetooth-Incoming-Port"@ =~= "cu.Bluetooth-Incoming-Port"@);
    assert("tty."@ + "Bluetooth-Incoming-Port"@ =~= "tty.Bluetooth-Incoming-Port"@);
    assert("cu."@ + "debug-console"@ =~= "cu.debug-console"@);
    assert("tty."@ + "debug-console"@ =~= "tty.debug-console"@);
    assert("cu."@ + "wlan-debug"@ =~= "cu.wlan-debug"@);
    assert("tty."@ + "wlan-debug"@ =~= "tty.wlan-debug"@);
}

/// Both names of a device lead to the same callout path, which keeps all that follows
/// the first part of the name, and a device that is not a `tty.` one has none.
pub proof fn a_twin_keeps_the_name(dir: Seq<char>, rest: Seq<char>, name: Seq<char>)
    requires
        !rest.contains('/'),
        !name.contains('/'),
        !seq!['t', 't', 'y', '.'].is_prefix_of(name),
    ensures
        callout(dir + "/tty."@ + rest) == Some("/dev/cu."@ + rest),
        callout(dir + seq!['/'] + name) is None,
{
    reveal_strlit("/tty.");
    reveal_strlit("tty.");
    let t = seq!['t', 't', 'y', '.'];
    assert("tty."@ =~= t);
    let l = t + rest;
    assert forall|i: int| 0 <= i < l.len() implies l[i] != '/' by {
        if i >= 4 {
            assert(rest.contains(rest[i - 4]));
        }
    }
    text::a_path_ends_with_its_name(dir, l);
    assert(dir + "/tty."@ + rest =~= dir + seq!['/'] + l);
    assert(l.skip(4) =~= rest);
    assert(t =~= l.subrange(0, 4));
    text::a_path_ends_with_its_name(dir, name);
}

/// Two devices have the same identity exactly when they agree in vendor, product and
/// serial number; a device without a serial number, or not on USB, has none. The path
/// is part of none.
pub proof fn identities_tell_devices_apart(a: DetectedPort, b: DetectedPort)
    ensures
        a.identity() is Some <==> (a.kind matches PortKind::Usb(u) && u.serial_number is Some),
        a.identity() matches Some((id, path)) ==> path == a.path@,
        a.identity() is Some && b.identity() is Some ==> ((a.identity()->0).0 == (b.identity()->0).0
            <==> match (a.kind, b.kind) {
            (PortKind::Usb(u), PortKind::Usb(v)) => u.vid == v.vid && u.pid == v.pid
                && opt_text(u.serial_number) == opt_text(v.serial_number),
            _ => false,
        }),
{
    if let (PortKind::Usb(u), PortKind::Usb(v)) = (a.kind, b.kind) {
        if let (Some(s), Some(t)) = (u.serial_number, v.serial_number) {
            let x = (a.identity()->0).0;
            let y = (b.identity()->0).0;
            if x == y {
                reveal_strlit("usb-");
                reveal_strlit(":");
                reveal_strlit("-");
                assert(x.subrange(4, 8) =~= text::hex4(u.vid as nat));
                assert(y.subrange(4, 8) =~= text::hex4(v.vid as nat));
                assert(x.subrange(9, 13) =~= text::hex4(u.pid as nat));
                assert(y.subrange(9, 13) =~= text::hex4(v.pid as nat));
                assert(x.skip(14) =~= s@);
                assert(y.skip(14) =~= t@);
                text::hex_digits_tell_numbers_apart(u.vid as nat, v.vid as nat);
                text::hex_digits_tell_numbers_apart(u.pid as nat, v.pid as nat);
            }
        }
    }
}

/// Whether one of `ports` has the identity and the path of `entry`.
pub open spec fn detected_with(ports: Seq<DetectedPort>, entry: (Seq<char>, Seq<char>)) -> bool {
    exists|i: int| 0 <= i < ports.len() && (#[trigger] ports[i]).identity() == Some(entry)
}

proof fn lemma_detected_push(
    ports: Seq<DetectedPort>,
    port: DetectedPort,
    entry: (Seq<char>, Seq<char>),
)
    ensures
        detected_with(ports.push(port), entry) <==> detected_with(ports, entry) || port.identity()
            == Some(entry),
{
    let more = ports.push(port);
    assert(more[ports.len() as int] == port);
    if detected_with(ports, entry) {
        let i = choose|i: int|
            0 <= i < ports.len() && (#[trigger] ports[i]).identity() == Some(entry);
        assert(more[i] == ports[i]);
    }
    if detected_with(more, entry) {
        let i = choose|i: int|
            0 <= i < more.len() && (#[trigger] more[i]).identity() == Some(entry);
        if i < ports.len() {
            assert(ports[i] == more[i]);
        }
    }
}

/// The identities known are those of the ports detected: each device that has one is
/// there with its path, and nothing else is.
pub proof fn known_identities_are_those_detected(
    ports: Seq<DetectedPort>,
    entry: (Seq<char>, Seq<char>),
)
    ensures
        known_identities(ports).contains(entry) <==> detected_with(ports, entry),
    decreases ports.len(),
{
    if ports.len() > 0 {
        let head = ports.drop_last();
        let port = ports.last();
        known_identities_are_those_detected(head, entry);
        assert(head.push(port) =~= ports);
        lemma_detected_push(head, port, entry);
        if let Some(e) = port.identity() {
            lemma_contains_push(known_identities(head), e, entry);
        }
    }
}

proof fn lemma_all_merged(a: Seq<PortInfoView>, b: Seq<PortInfoView>, c: Seq<PortInfoView>)
    ensures
        merged_all(merged_all(a, b), c) == merged_all(a, b + c),
    decreases c.len(),
{
    if c.len() == 0 {
        assert(b + c =~= b);
    } else {
        lemma_all_merged(a, b, c.drop_last());
        assert((b + c).drop_last() =~= b + c.drop_last());
    }
}

/// What is known of `path` from `ports` together: whether any of them is on USB, and
/// the first label of any that says something.
pub open spec fn gathered(ports: Seq<PortInfoView>, path: Seq<char>, entry: PortInfoView) -> bool {
    &&& entry.path == path
    &&& entry.is_usb <==> exists|j: int|
        0 <= j < ports.len() && (#[trigger] ports[j]).path == path && ports[j].is_usb
    &&& entry.label.len() == 0 ==> forall|j: int|
        0 <= j < ports.len() && (#[trigger] ports[j]).path == path ==> ports[j].label.len() == 0
    &&& entry.label.len() > 0 ==> exists|j: int|
        {
            &&& 0 <= j < ports.len()
            &&& (#[trigger] ports[j]).path == path
            &&& ports[j].label == entry.label
            &&& forall|k: int|
                0 <= k < j && (#[trigger] ports[k]).path == path ==> ports[k].label.len() == 0
        }
}

proof fn lemma_merged_into(found: Seq<PortInfoView>, port: PortInfoView, i: int) -> (at: int)
    requires
        0 <= i <= found.len(),
        forall|j: int| 0 <= j < i ==> (#[trigger] found[j]).path != port.path,
    ensures
        i <= at <= found.len(),
        forall|j: int| 0 <= j < at ==> (#[trigger] found[j]).path != port.path,
        at < found.len() ==> found[at].path == port.path && merged_from(found, port, i)
            == found.update(at, merged(found[at], port)),
        at == found.len() ==> merged_from(found, port, i) == found.push(port),
    decreases found.len() - i,
{
    if i < found.len() && found[i].path != port.path {
        lemma_merged_into(found, port, i + 1)
    } else {
        i
    }
}

proof fn lemma_gathered_more(
    ports: Seq<PortInfoView>,
    port: PortInfoView,
    path: Seq<char>,
    entry: PortInfoView,
)
    requires
        gathered(ports, path, entry),
    ensures
        port.path != path ==> gathered(ports.push(port), path, entry),
        port.path == path ==> gathered(ports.push(port), path, merged(entry, port)),
{
    let more = ports.push(port);
    let n = ports.len() as int;
    let e = if port.path == path {
        merged(entry, port)
    } else {
        entry
    };
    assert forall|j: int| 0 <= j < n implies more[j] == ports[j] by {}
    assert(more[n] == port);
    if entry.is_usb {
        let j = choose|j: int|
            0 <= j < ports.len() && (#[trigger] ports[j]).path == path && ports[j].is_usb;
        assert(more[j].path == path && more[j].is_usb);
    }
    if exists|j: int| 0 <= j < more.len() && (#[trigger] more[j]).path == path && more[j].is_usb {
        let j = choose|j: int|
            0 <= j < more.len() && (#[trigger] more[j]).path == path && more[j].is_usb;
        if j < n {
            assert(ports[j].path == path && ports[j].is_usb);
        }
    }
    assert(e.is_usb <==> exists|j: int|
        0 <= j < more.len() && (#[trigger] more[j]).path == path && more[j].is_usb);
    if entry.label.len() > 0 {
        let j = choose|j: int|
            {
                &&& 0 <= j < ports.len()
                &&& (#[trigger] ports[j]).path == path
                &&& ports[j].label == entry.label
                &&& forall|k: int|
                    0 <= k < j && (#[trigger] ports[k]).path == path ==> ports[k].label.len() == 0
            };
        assert(more[j].path == path && more[j].label == e.label);
        assert forall|k: int| 0 <= k < j && (#[trigger] more[k]).path == path implies
            more[k].label.len() == 0 by {
            assert(more[k] == ports[k]);
        }
    } else if e.label.len() > 0 {
        assert(more[n].path == path && more[n].label == e.label);
        assert forall|k: int| 0 <= k < n && (#[trigger] more[k]).path == path implies
            more[k].label.len() == 0 by {
            assert(more[k] == ports[k]);
        }
    } else {
        assert forall|k: int| 0 <= k < more.len() && (#[trigger] more[k]).path == path implies
            more[k].label.len() == 0 by {
            if k < n {
                assert(more[k] == ports[k]);
            }
        }
    }
}

/// Whether one of `ports` has the path `path`.
pub open spec fn lists(ports: Seq<PortInfoView>, path: Seq<char>) -> bool {
    exists|i: int| 0 <= i < ports.len() && (#[trigger] ports[i]).path == path
}

proof fn lemma_merging_lists(ports: Seq<PortInfoView>, path: Seq<char>)
    ensures
        lists(merged_all(Seq::empty(), ports), path) <==> lists(ports, path),
    decreases ports.len(),
{
    if ports.len() > 0 {
        let head = ports.drop_last();
        let port = ports.last();
        let before = merged_all(Seq::empty(), head);
        let all = merged_all(Seq::empty(), ports);
        lemma_merging_lists(head, path);
        let at = lemma_merged_into(before, port, 0);
        assert(all[at].path == port.path);
        assert(ports[ports.len() - 1] == port);
        if lists(before, path) {
            let i = choose|i: int| 0 <= i < before.len() && (#[trigger] before[i]).path == path;
            assert(all[i].path == path);
        }
        if lists(all, path) && port.path != path {
            let i = choose|i: int| 0 <= i < all.len() && (#[trigger] all[i]).path == path;
            assert(before[i].path == path);
        }
        if lists(head, path) {
            let j = choose|j: int| 0 <= j < head.len() && (#[trigger] head[j]).path == path;
            assert(ports[j].path == path);
        }
        if lists(ports, path) && port.path != path {
            let j = choose|j: int| 0 <= j < ports.len() && (#[trigger] ports[j]).path == path;
            assert(head[j].path == path);
        }
    }
}

proof fn lemma_merging_gathers(ports: Seq<PortInfoView>, i: int)
    requires
        0 <= i < merged_all(Seq::empty(), ports).len(),
    ensures
        ({
            let all = merged_all(Seq::empty(), ports);
            gathered(ports, all[i].path, all[i])
        }),
    decreases ports.len(),
{
    if ports.len() > 0 {
        let head = ports.drop_last();
        let port = ports.last();
        let before = merged_all(Seq::empty(), head);
        let all = merged_all(Seq::empty(), ports);
        let at = lemma_merged_into(before, port, 0);
        assert(head.push(port) =~= ports);
        if i < before.len() {
            lemma_merging_gathers(head, i);
            lemma_gathered_more(head, port, before[i].path, before[i]);
            if i != at {
                assert(all[i] == before[i]);
                if at < before.len() {
                    merging_lists_no_path_twice(Seq::empty(), head);
                    assert(before[at].path != before[i].path);
                }
                assert(port.path != before[i].path);
            }
        } else {
            assert(!lists(before, port.path));
            lemma_merging_lists(head, port.path);
            lemma_new_entry(head, port);
        }
    }
}

proof fn lemma_new_entry(ports: Seq<PortInfoView>, port: PortInfoView)
    requires
        !lists(ports, port.path),
    ensures
        gathered(ports.push(port), port.path, port),
{
    let more = ports.push(port);
    let n = ports.len() as int;
    assert(more[n] == port);
    assert forall|j: int| 0 <= j < n implies (#[trigger] more[j]).path != port.path by {
        assert(more[j] == ports[j]);
    }
}

/// Everything found is there once, whichever source it came from, detected ports first:
/// each path that any source has, and no other, with all that is known of it.
pub proof fn nothing_found_is_left_out(
    detected: Seq<DetectedPort>,
    scanned: Seq<PortInfo>,
    path: Seq<char>,
    i: int,
)
    ensures
        ({
            let sources = detected_infos(detected) + infos(scanned);
            let all = all_found(detected, scanned);
            &&& paths_distinct(all)
            &&& lists(all, path) <==> lists(sources, path)
            &&& 0 <= i < all.len() ==> gathered(sources, all[i].path, all[i])
        }),
{
    let sources = detected_infos(detected) + infos(scanned);
    lemma_all_merged(Seq::empty(), detected_infos(detected), infos(scanned));
    assert(all_found(detected, scanned) == merged_all(Seq::empty(), sources));
    merging_lists_no_path_twice(Seq::empty(), sources);
    lemma_merging_lists(sources, path);
    if 0 <= i < all_found(detected, scanned).len() {
        lemma_merging_gathers(sources, i);
    }
}

/// A port is listed exactly when it was found, is no noise and, on macOS, is no `tty.`
/// device under `/dev`.
pub proof fn only_noise_is_left_out(found: Seq<PortInfoView>, port: PortInfoView, macos: bool)
    ensures
        kept_ports(found, macos).contains(port) <==> found.contains(port) && !noise(port.path) && !(
        macos && "/dev/tty."@.is_prefix_of(port.path)),
    decreases found.len(),
{
    if found.len() > 0 {
        let head = found.drop_last();
        only_noise_is_left_out(head, port, macos);
        assert(found =~= head.push(found.last()));
        let k = kept_ports(head, macos);
        lemma_contains_push(head, found.last(), port);
        lemma_contains_push(k, found.last(), port);
    }
}

proof fn lemma_contains_push<A>(s: Seq<A>, last: A, x: A)
    ensures
        s.push(last).contains(x) <==> s.contains(x) || last == x,
{
    let t = s.push(last);
    if t.contains(x) {
        let i = choose|i: int| 0 <= i < t.len() && t[i] == x;
        if i < s.len() {
            assert(s[i] == x);
        }
    }
    if s.contains(x) {
        let i = choose|i: int| 0 <= i < s.len() && s[i] == x;
        assert(t[i] == x);
    }
    if last == x {
        assert(t[s.len() as int] == x);
    }
}

/// A terminal device is found exactly when hardware stands behind it and its node
/// exists; a name in `/dev` when it starts with `cu.`; a link always, as a USB port
/// under the node it leads to and with the link's own name.
pub proof fn scans_find_what_is_there(
    links: Seq<(String, String)>,
    entries: Seq<TtyEntry>,
    names: Seq<String>,
    port: PortInfoView,
)
    ensures
        tty_infos(entries).contains(port) <==> exists|i: int|
            0 <= i < entries.len() && (#[trigger] entries[i]).has_device && entries[i].node_exists
                && port == tty_info(entries[i].name@),
        callout_infos(names).contains(port) <==> exists|i: int|
            0 <= i < names.len() && "cu."@.is_prefix_of((#[trigger] names[i])@) && port == tty_info(
                names[i]@,
            ),
        by_id_infos(links).len() == links.len(),
        forall|i: int|
            0 <= i < links.len() ==> (#[trigger] by_id_infos(links)[i]).path == links[i].1@
                && by_id_infos(links)[i].label == links[i].0@ && by_id_infos(links)[i].is_usb,
{
    lemma_tty_infos(entries, port);
    lemma_callout_infos(names, port);
}

proof fn lemma_tty_infos(entries: Seq<TtyEntry>, port: PortInfoView)
    ensures
        tty_infos(entries).contains(port) <==> exists|i: int|
            0 <= i < entries.len() && (#[trigger] entries[i]).has_device && entries[i].node_exists
                && port == tty_info(entries[i].name@),
    decreases entries.len(),
{
    if entries.len() > 0 {
        let head = entries.drop_last();
        let e = entries.last();
        lemma_tty_infos(head, port);
        lemma_contains_push(tty_infos(head), tty_info(e.name@), port);
        assert(entries[entries.len() - 1] == e);
        if exists|i: int|
            0 <= i < head.len() && (#[trigger] head[i]).has_device && head[i].node_exists && port
                == tty_info(head[i].name@) {
            let i = choose|i: int|
                0 <= i < head.len() && (#[trigger] head[i]).has_device && head[i].node_exists
                    && port == tty_info(head[i].name@);
            assert(entries[i] == head[i]);
        }
        if exists|i: int|
            0 <= i < entries.len() && (#[trigger] entries[i]).has_device && entries[i].node_exists
                && port == tty_info(entries[i].name@) {
            let i = choose|i: int|
                0 <= i < entries.len() && (#[trigger] entries[i]).has_device
                    && entries[i].node_exists && port == tty_info(entries[i].name@);
            if i < head.len() {
                assert(head[i] == entries[i]);
            }
        }
    }
}

proof fn lemma_callout_infos(names: Seq<String>, port: PortInfoView)
    ensures
        callout_infos(names).contains(port) <==> exists|i: int|
            0 <= i < names.len() && "cu."@.is_prefix_of((#[trigger] names[i])@) && port == tty_info(
                names[i]@,
            ),
    decreases names.len(),
{
    if names.len() > 0 {
        let head = names.drop_last();
        let e = names.last();
        lemma_callout_infos(head, port);
        lemma_contains_push(callout_infos(head), tty_info(e@), port);
        assert(names[names.len() - 1] == e);
        if exists|i: int|
            0 <= i < head.len() && "cu."@.is_prefix_of((#[trigger] head[i])@) && port == tty_info(
                head[i]@,
            ) {
            let i = choose|i: int|
                0 <= i < head.len() && "cu."@.is_prefix_of((#[trigger] head[i])@) && port
                    == tty_info(head[i]@);
            assert(names[i] == head[i]);
        }
        if exists|i: int|
            0 <= i < names.len() && "cu."@.is_prefix_of((#[trigger] names[i])@) && port
                == tty_info(names[i]@) {
            let i = choose|i: int|
                0 <= i < names.len() && "cu."@.is_prefix_of((#[trigger] names[i])@) && port
                    == tty_info(names[i]@);
            if i < head.len() {
                assert(head[i] == names[i]);
            }
        }
    }
}

/// The USB ports of a list are all those on it that are on USB, in the same order.
pub proof fn usb_ports_are_those_on_usb(a: Seq<PortInfoView>, port: PortInfoView, b: Seq<PortInfoView>)
    ensures
        usb_ports(a + seq![port] + b) == usb_ports(a) + (if port.is_usb {
            seq![port]
        } else {
            Seq::empty()
        }) + usb_ports(b),
        usb_ports(a).contains(port) <==> a.contains(port) && port.is_usb,
    decreases a.len() + b.len(),
{
    let all = a + seq![port] + b;
    let mid = if port.is_usb {
        seq![port]
    } else {
        Seq::<PortInfoView>::empty()
    };
    if b.len() == 0 {
        assert(all =~= a.push(port));
        assert(a.push(port).drop_last() =~= a);
        assert(usb_ports(all) =~= usb_ports(a) + mid + usb_ports(b));
        if a.len() > 0 {
            usb_ports_are_those_on_usb(a.drop_last(), port, b);
            assert(a =~= a.drop_last().push(a.last()));
            lemma_contains_push(a.drop_last(), a.last(), port);
            lemma_contains_push(usb_ports(a.drop_last()), a.last(), port);
        }
    } else {
        usb_ports_are_those_on_usb(a, port, b.drop_last());
        assert(all.drop_last() =~= a + seq![port] + b.drop_last());
        assert(all.last() == b.last());
        assert(usb_ports(all) =~= usb_ports(a) + mid + usb_ports(b));
    }
}

/// Bytes compare at the first place where they differ, and what ends first comes first.
pub proof fn bytes_compare_where_they_differ(common: Seq<u8>, a: Seq<u8>, b: Seq<u8>)
    requires
        a.len() > 0 && b.len() > 0 ==> a[0] != b[0],
    ensures
        bytes_less(common + a, common + b) <==> b.len() > 0 && (a.len() == 0 || a[0] < b[0]),
    decreases common.len(),
{
    if common.len() == 0 {
        assert(common + a =~= a);
        assert(common + b =~= b);
    } else {
        let rest = common.skip(1);
        bytes_compare_where_they_differ(rest, a, b);
        assert((common + a).skip(1) =~= rest + a);
        assert((common + b).skip(1) =~= rest + b);
        assert((common + a)[0] == common[0] && (common + b)[0] == common[0]);
    }
}

/// In a list that is in order no USB port follows another port, and ports of the same
/// kind go up by path.
pub proof fn usb_ports_come_first(ports: Seq<PortInfoView>, i: int, j: int)
    requires
        in_order(ports),
        0 <= i < j < ports.len(),
    ensures
        ports[j].is_usb ==> ports[i].is_usb,
        ports[i].is_usb == ports[j].is_usb ==> bytes_less(
            encode_utf8(ports[i].path),
            encode_utf8(ports[j].path),
        ),
{
    assert(listed_before(ports[i], ports[j]));
}

/// Every path fits the column for paths, and one fills it.
pub proof fn the_longest_path_sets_the_width(ports: Seq<PortInfoView>, i: int)
    requires
        0 <= i < ports.len(),
    ensures
        encode_utf8(ports[i].path).len() <= path_width(ports),
        exists|j: int|
            0 <= j < ports.len() && encode_utf8((#[trigger] ports[j]).path).len() == path_width(
                ports,
            ),
    decreases ports.len(),
{
    let head = ports.drop_last();
    let n = ports.len() - 1;
    if i < n {
        assert(head[i] == ports[i]);
        the_longest_path_sets_the_width(head, i);
    } else if head.len() > 0 {
        the_longest_path_sets_the_width(head, 0);
    }
    assert(ports[n] == ports.last());
    if head.len() > 0 && path_width(ports) == path_width(head) {
        let j = choose|j: int|
            0 <= j < head.len() && encode_utf8((#[trigger] head[j]).path).len() == path_width(head);
        assert(ports[j] == head[j]);
    }
}

/// A line of the port list starts with `usb` or with blanks, then holds the path, then
/// the label where there is one, always at the same column.
pub proof fn a_list_line_tells_the_port(port: PortInfoView, width: nat)
    requires
        port.path.len() <= width,
    ensures
        ({
            let l = list_line(port, width);
            &&& l.take(3) == (if port.is_usb {
                seq!['u', 's', 'b']
            } else {
                seq![' ', ' ', ' ']
            })
            &&& l.subrange(5, 5int + port.path.len()) == port.path
            &&& forall|i: int| 5 + port.path.len() <= i < 5 + width ==> #[trigger] l[i] == ' '
            &&& port.label.len() > 0 ==> l.subrange(7int + width, 7int + width + port.label.len())
                == port.label && l.len() == 8 + width + port.label.len()
            &&& port.label.len() == 0 ==> l.len() == 6 + width
            &&& l.last() == '\n'
        }),
{
    reveal_strlit("usb");
    reveal_strlit("   ");
    reveal_strlit("  ");
    reveal_strlit("\n");
    let l = list_line(port, width);
    assert(l.take(3) =~= (if port.is_usb {
        seq!['u', 's', 'b']
    } else {
        seq![' ', ' ', ' ']
    }));
    assert(l.subrange(5, 5int + port.path.len()) =~= port.path);
    if port.label.len() > 0 {
        assert(l.subrange(7int + width, 7int + width + port.label.len()) =~= port.label);
    }
}

/// The list has one line for each port, in order.
pub proof fn the_list_has_a_line_for_each_port(
    a: Seq<PortInfoView>,
    port: PortInfoView,
    b: Seq<PortInfoView>,
    width: nat,
)
    ensures
        list_lines(a + seq![port] + b, width) == list_lines(a, width) + list_line(port, width)
            + list_lines(b, width),
    decreases b.len(),
{
    let all = a + seq![port] + b;
    if b.len() == 0 {
        assert(all =~= a.push(port));
        assert(a.push(port).drop_last() =~= a);
    } else {
        the_list_has_a_line_for_each_port(a, port, b.drop_last(), width);
        assert(all.drop_last() =~= a + seq![port] + b.drop_last());
        assert(all.last() == b.last());
    }
    assert(list_lines(all, width) =~= list_lines(a, width) + list_line(port, width) + list_lines(
        b,
        width,
    ));
}

/// Every port on the menu stands behind its own number, counted from one, with its
/// label where it has one.
pub proof fn the_menu_numbers_the_ports(ports: Seq<PortInfoView>, i: int)
    requires
        0 <= i < ports.len(),
    ensures
        text::occurs(
            "  "@ + text::decimal((i + 1) as nat) + ") "@ + ports[i].path + (
            if ports[i].label.len() == 0 {
                Seq::empty()
            } else {
                "  "@ + ports[i].label
            }) + "\n"@,
            menu_lines(ports),
        ),
        menu_lines(ports).is_prefix_of(
            menu_text(ports).skip("Multiple ports found:\n"@.len() as int),
        ),
    decreases ports.len(),
{
    let head = ports.drop_last();
    let n = ports.len() - 1;
    let line = "  "@ + text::decimal((i + 1) as nat) + ") "@ + ports[i].path + (
    if ports[i].label.len() == 0 {
        Seq::empty()
    } else {
        "  "@ + ports[i].label
    }) + "\n"@;
    let all = menu_lines(ports);
    let before = menu_lines(head);
    if i == n {
        assert(all =~= before + line + Seq::<char>::empty());
        text::a_text_is_found_wherever_it_stands(before, line, Seq::empty(), all);
    } else {
        the_menu_numbers_the_ports(head, i);
        assert(head[i] == ports[i]);
        let k = choose|k: int|
            0 <= k <= before.len() - line.len() && #[trigger] before.subrange(k, k + line.len())
                == line;
        assert(all.take(before.len() as int) =~= before);
        assert(all.subrange(k, k + line.len()) =~= line);
    }
    let m = menu_text(ports);
    let rest = m.skip("Multiple ports found:\n"@.len() as int);
    assert(all =~= rest.subrange(0, all.len() as int));
}

/// The number on the menu, with any white space around it, is the answer that picks a
/// port.
pub proof fn the_number_picks_the_port(front: Seq<char>, n: usize, back: Seq<char>)
    requires
        forall|i: int| 0 <= i < front.len() ==> text::white_space(#[trigger] front[i]),
        forall|i: int| 0 <= i < back.len() ==> text::white_space(#[trigger] back[i]),
    ensures
        text::parsed_usize(text::trimmed(front + text::decimal(n as nat) + back)) == Some(n),
{
    let d = text::decimal(n as nat);
    text::decimal_digits_keep_the_value(n as nat);
    assert('0' <= d[0] <= '9' && '0' <= d[d.len() - 1] <= '9');
    text::trimming_takes_white_space_off_both_ends(front, d, back);
    text::a_printed_number_reads_back(n as nat);
}

/// A label names the device by what it reports of itself, the manufacturer in front of
/// the product, and by its numbers in hexadecimal where it reports neither.
pub proof fn a_label_names_the_device(m: Seq<char>, p: Seq<char>, vid: u16, pid: u16)
    ensures
        usb_label(Some(m), Some(p), vid as nat, pid as nat) == m + seq![' '] + p,
        usb_label(Some(m), None, vid as nat, pid as nat) == m,
        usb_label(None, Some(p), vid as nat, pid as nat) == p,
        ({
            let l = usb_label(None, None, vid as nat, pid as nat);
            &&& l.len() == 13
            &&& l.take(4) == seq!['U', 'S', 'B', ' ']
            &&& l.subrange(4, 8) == text::hex4(vid as nat)
            &&& l[8] == ':'
            &&& l.skip(9) == text::hex4(pid as nat)
        }),
{
    reveal_strlit(" ");
    reveal_strlit("USB ");
    reveal_strlit(":");
    assert(" "@ =~= seq![' ']);
    let l = usb_label(None, None, vid as nat, pid as nat);
    assert(l.take(4) =~= seq!['U', 'S', 'B', ' ']);
    assert(l.subrange(4, 8) =~= text::hex4(vid as nat));
    assert(l.skip(9) =~= text::hex4(pid as nat));
}

/// A detected port is listed under its own path, as a USB port where the system says it
/// is one or its name does, and with what the system knows of it as its label.
pub proof fn an_entry_tells_the_port(d: DetectedPort)
    ensures
        d.info().path == d.path@,
        d.kind is Usb ==> d.info().is_usb,
        !(d.kind is Usb) ==> d.info().is_usb == usb_named(d.path@),
        d.kind is Bluetooth ==> d.info().label == "Bluetooth"@,
        d.kind is Pci ==> d.info().label == "PCI"@,
        d.kind is Unknown ==> d.info().label.len() == 0,
        d.kind matches PortKind::Usb(u) ==> d.info().label == usb_label(
            opt_text(u.manufacturer),
            opt_text(u.product),
            u.vid as nat,
            u.pid as nat,
        ),
{
}

/// A device node is listed under `/dev`, without a label, as a USB port where its name
/// says so.
pub proof fn a_node_is_listed_under_dev(name: Seq<char>)
    requires
        !name.contains('/'),
    ensures
        tty_info(name).path == seq!['/', 'd', 'e', 'v', '/'] + name,
        tty_info(name).label.len() == 0,
        tty_info(name).is_usb == usb_named(name),
{
    reveal_strlit("/dev/");
    assert("/dev/"@ =~= seq!['/', 'd', 'e', 'v', '/']);
    let dir = seq!['/', 'd', 'e', 'v'];
    text::a_path_ends_with_its_name(dir, name);
    assert("/dev/"@ + name =~= dir + seq!['/'] + name);
}

/// The remark on a callout device names both the device used and the one asked for, in
/// this order.
pub proof fn the_remark_names_both(path: Seq<char>, cu: Seq<char>)
    ensures
        ("note: using "@ + cu).is_prefix_of(callout_remark(path, cu)),
        text::occurs(cu + " instead of "@ + path, callout_remark(path, cu)),
{
    let r = callout_remark(path, cu);
    let front = "note: using "@;
    let head = front + cu;
    assert(head =~= r.subrange(0, head.len() as int));
    let mid = cu + " instead of "@ + path;
    text::a_text_is_found_wherever_it_stands(front, mid, " (tty devices block until DCD)"@, r);
    assert(r =~= front + mid + " (tty devices block until DCD)"@);
}

/// Where no port can be picked the user is told what there is: the names of the ports
/// that are not on USB, or the answer that is no number.
pub proof fn a_failed_choice_is_explained(names: String, answer: String)
    ensures
        names@.is_suffix_of(ChooseError::NoUsbPort(names).sentence()),
        text::debug_str(answer@).is_suffix_of(ChooseError::NotANumber(answer).sentence()),
{
    let s = ChooseError::NoUsbPort(names).sentence();
    assert(names@ =~= s.subrange(s.len() - names@.len(), s.len() as int));
    let s = ChooseError::NotANumber(answer).sentence();
    let d = text::debug_str(answer@);
    assert(d =~= s.subrange(s.len() - d.len(), s.len() as int));
}

} // verus!
