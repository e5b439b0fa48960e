//! How a station puts a UI frame on the wire, and that parsing undoes it.

use vstd::prelude::*;

use crate::ax25::frame;
use crate::ax25::frame::FrameView;

verus! {

/// A station address.
pub struct Station {
    /// Callsign without SSID.
    pub base: Seq<char>,
    /// Secondary station identifier.
    pub ssid: nat,
}

impl Station {
    /// One to six upper-case letters or digits, and an SSID of four bits.
    pub open spec fn valid(self) -> bool {
        &&& 1 <= self.base.len() <= 6
        &&& forall|i: int|
            0 <= i < self.base.len() ==> 'A' <= #[trigger] self.base[i] <= 'Z' || '0'
                <= self.base[i] <= '9'
        &&& self.ssid < 16
    }

    /// The address as it is written.
    pub open spec fn text(self) -> Seq<char> {
        self.base + frame::ssid_suffix(self.ssid)
    }

    /// The seven-byte address field, its two reserved bits set.
    pub open spec fn field(self, end: bool, heard: bool) -> Seq<u8> {
        Seq::new(
            7,
            |i: int|
                if i == 6 {
                    (0x60 + 2 * self.ssid + (if end {
                        1int
                    } else {
                        0
                    }) + (if heard {
                        128int
                    } else {
                        0
                    })) as u8
                } else if i < self.base.len() {
                    (2 * (self.base[i] as int)) as u8
                } else {
                    64u8
                },
        )
    }
}

/// A path entry: the digipeater, and whether it has repeated the frame.
pub struct Hop {
    pub station: Station,
    pub heard: bool,
}

/// A UI frame to send.
pub struct UiFrame {
    pub destination: Station,
    pub source: Station,
    pub path: Seq<Hop>,
    pub info: Seq<u8>,
}

impl UiFrame {
    /// All of its addresses are valid.
    pub open spec fn valid(self) -> bool {
        &&& self.destination.valid()
        &&& self.source.valid()
        &&& forall|i: int| 0 <= i < self.path.len() ==> (#[trigger] self.path[i]).station.valid()
    }

    /// Address field `i`: destination, source, then the path. The last field of the
    /// address part carries the end bit.
    pub open spec fn field(self, i: int) -> Seq<u8> {
        if i == 0 {
            self.destination.field(false, false)
        } else if i == 1 {
            self.source.field(self.path.len() == 0, false)
        } else {
            self.path[i - 2].station.field(i == self.path.len() + 1, self.path[i - 2].heard)
        }
    }

    /// Number of address fields.
    pub open spec fn fields(self) -> int {
        self.path.len() as int + 2
    }

    /// The frame as bytes, without check sequence.
    pub open spec fn bytes(self) -> Seq<u8> {
        Seq::new((7 * self.fields()) as nat, |k: int| self.field(k / 7)[k % 7])
            + seq![frame::CONTROL_UI, frame::PID_NO_LAYER_3] + self.info
    }

    /// What a receiver should read from it.
    pub open spec fn content(self) -> FrameView {
        FrameView {
            source: self.source.text(),
            destination: self.destination.text(),
            via: self.path.map_values(|h: Hop| h.station.text()),
            via_heard: self.path.map_values(|h: Hop| h.heard),
            info: self.info,
        }
    }
}

proof fn lemma_field_len(station: Station, end: bool, heard: bool, i: int)
    requires
        station.valid(),
        0 <= i <= station.base.len(),
    ensures
        frame::base_len(station.field(end, heard), i) == station.base.len(),
    decreases station.base.len() - i,
{
    let f = station.field(end, heard);
    if i < station.base.len() {
        assert('A' <= station.base[i] <= 'Z' || '0' <= station.base[i] <= '9');
        assert(f[i] / 2 == station.base[i] as int);
        lemma_field_len(station, end, heard, i + 1);
    } else if i < 6 {
        assert(f[i] / 2 == 32);
    }
}

/// An address field is read back as the address that was put in.
pub proof fn law_address_round_trip(station: Station, end: bool, heard: bool)
    requires
        station.valid(),
    ensures
        ({
            let f = station.field(end, heard);
            &&& frame::callsign_ok(f)
            &&& frame::address_text(f) == station.text()
            &&& frame::end_bit(f) == end
            &&& frame::heard_bit(f) == heard
        }),
{
    let f = station.field(end, heard);
    lemma_field_len(station, end, heard, 0);
    assert forall|i: int| 0 <= i < station.base.len() implies (#[trigger] f[i]) / 2
        == station.base[i] as int by {
        assert('A' <= station.base[i] <= 'Z' || '0' <= station.base[i] <= '9');
    }
    assert(f[6] == 0x60 + 2 * station.ssid + (if end {
        1int
    } else {
        0
    }) + (if heard {
        128int
    } else {
        0
    }));
    assert(frame::ssid_of(f) == station.ssid);
    assert(Seq::new(station.base.len(), |i: int| (f[i] / 2) as char) =~= station.base) by {
        assert forall|i: int| 0 <= i < station.base.len() implies (f[i] / 2) as char
            == station.base[i] by {
            assert(f[i] / 2 == station.base[i] as int);
        }
    }
    assert forall|i: int| 0 <= i < station.base.len() implies frame::callsign_char(
        (#[trigger] f[i]) / 2,
    ) by {
        assert('A' <= station.base[i] <= 'Z' || '0' <= station.base[i] <= '9');
    }
}

proof fn lemma_field_at(ui: UiFrame, i: int)
    requires
        ui.valid(),
        0 <= i < ui.fields(),
    ensures
        frame::field_at(ui.bytes(), i) == ui.field(i),
        frame::callsign_ok(ui.field(i)),
        i >= 1 ==> frame::end_bit(ui.field(i)) == (i == ui.fields() - 1),
{
    let f = ui.field(i);
    if i == 0 {
        law_address_round_trip(ui.destination, false, false);
    } else if i == 1 {
        law_address_round_trip(ui.source, ui.path.len() == 0, false);
    } else {
        let h = ui.path[i - 2];
        law_address_round_trip(h.station, i == ui.path.len() + 1, h.heard);
    }
    assert forall|j: int| 0 <= j < 7 implies frame::field_at(ui.bytes(), i)[j] == f[j] by {
        assert((7 * i + j) / 7 == i && (7 * i + j) % 7 == j);
    }
    assert(frame::field_at(ui.bytes(), i) =~= f);
}

proof fn lemma_fields_counted(ui: UiFrame, i: int)
    requires
        ui.valid(),
        1 <= i < ui.fields(),
    ensures
        frame::field_count(ui.bytes(), i) == Some(ui.fields()),
    decreases ui.fields() - i,
{
    lemma_field_at(ui, i);
    if i < ui.fields() - 1 {
        lemma_fields_counted(ui, i + 1);
    }
}

/// Parsing the bytes of a UI frame gives back its addresses, the repeated flags of its
/// path and its information field.
pub proof fn law_frame_round_trip(ui: UiFrame)
    requires
        ui.valid(),
    ensures
        frame::parsed(ui.bytes()) == Some(ui.content()),
{
    let data = ui.bytes();
    let n = ui.fields();
    lemma_fields_counted(ui, 1);
    assert forall|i: int| 0 <= i < n implies frame::callsign_ok(
        #[trigger] frame::field_at(data, i),
    ) by {
        lemma_field_at(ui, i);
    }
    assert(data[7 * n] == frame::CONTROL_UI && data[7 * n + 1] == frame::PID_NO_LAYER_3);
    lemma_field_at(ui, 0);
    law_address_round_trip(ui.destination, false, false);
    lemma_field_at(ui, 1);
    law_address_round_trip(ui.source, ui.path.len() == 0, false);
    let got = frame::parsed(data)->0;
    assert forall|i: int| 0 <= i < ui.path.len() implies got.via[i] == ui.content().via[i]
        && got.via_heard[i] == ui.content().via_heard[i] by {
        lemma_field_at(ui, i + 2);
        law_address_round_trip(
            ui.path[i].station,
            i + 2 == ui.path.len() + 1,
            ui.path[i].heard,
        );
    }
    assert(got.via =~= ui.content().via);
    assert(got.via_heard =~= ui.content().via_heard);
    assert(got.info =~= ui.info);
}

/// A frame that no digipeater has repeated is heard from its source.
pub proof fn law_direct_is_from_source(f: FrameView)
    requires
        f.heard_direct(),
        f.via.len() == f.via_heard.len(),
    ensures
        f.heard_from(f.via_heard.len() as int) == f.source,
{
    lemma_direct(f, f.via_heard.len() as int);
}

proof fn lemma_direct(f: FrameView, n: int)
    requires
        f.heard_direct(),
        n <= f.via_heard.len(),
    ensures
        f.heard_from(n) == f.source,
    decreases n,
{
    if n > 0 {
        assert(!f.via_heard[n - 1]);
        lemma_direct(f, n - 1);
    }
}

/// Whoever a frame is heard from is its source, or a path entry that has repeated it
/// and is a station, with no such entry behind it.
pub proof fn law_heard_from_last_station(f: FrameView)
    requires
        f.via.len() == f.via_heard.len(),
    ensures
        ({
            let from = f.heard_from(f.via_heard.len() as int);
            let station = |i: int| f.via_heard[i] && !frame::aprs_alias(f.via[i]);
            ||| from == f.source && forall|i: int| 0 <= i < f.via.len() ==> !#[trigger] station(i)
            ||| exists|k: int|
                0 <= k < f.via.len() && #[trigger] station(k) && from == f.via[k] && forall|i: int|
                    k < i < f.via.len() ==> !#[trigger] station(i)
        }),
{
    lemma_heard_from(f, f.via_heard.len() as int);
}

proof fn lemma_heard_from(f: FrameView, n: int)
    requires
        0 <= n <= f.via.len(),
        f.via.len() == f.via_heard.len(),
    ensures
        ({
            let from = f.heard_from(n);
            let station = |i: int| f.via_heard[i] && !frame::aprs_alias(f.via[i]);
            ||| from == f.source && forall|i: int| 0 <= i < n ==> !#[trigger] station(i)
            ||| exists|k: int|
                0 <= k < n && #[trigger] station(k) && from == f.via[k] && forall|i: int|
                    k < i < n ==> !#[trigger] station(i)
        }),
    decreases n,
{
    let station = |i: int| f.via_heard[i] && !frame::aprs_alias(f.via[i]);
    if n > 0 {
        if station(n - 1) {
        } else {
            lemma_heard_from(f, n - 1);
        }
    }
}

/// A seven-byte field holds the address of a station. The lowest bit of each character byte
/// and the three highest of the last byte may be anything.
pub open spec fn holds(field: Seq<u8>, station: Station) -> bool {
    &&& field.len() == 7
    &&& forall|i: int|
        0 <= i < 6 ==> (#[trigger] field[i]) as int / 2 == if i < station.base.len() {
            station.base[i] as int
        } else {
            32
        }
    &&& (field[6] as int / 2) % 16 == station.ssid
}

/// The seventh byte of address field `i`.
pub open spec fn seventh(data: Seq<u8>, i: int) -> u8 {
    data[7 * i + 6]
}

/// The bytes are an AX.25 frame with this content: two addresses and a path of any length,
/// the last field but not the source or a hop before it marked as the end, then control
/// byte and PID of a UI frame and the information field. Bits that carry no meaning may be
/// anything: in the destination and the source the end and repeated bits of the former and
/// the repeated bit of the latter, and the reserved bits everywhere.
pub open spec fn carries(data: Seq<u8>, ui: UiFrame) -> bool {
    let n = ui.path.len() as int + 2;
    &&& data.len() == 7 * n + 2 + ui.info.len()
    &&& holds(data.subrange(0, 7), ui.destination)
    &&& holds(data.subrange(7, 14), ui.source)
    &&& forall|i: int|
        0 <= i < ui.path.len() ==> holds(
            data.subrange(7 * i + 14, 7 * i + 21),
            (#[trigger] ui.path[i]).station,
        ) && ui.path[i].heard == (data[7 * i + 20] >= 0x80)
    &&& forall|i: int| 1 <= i < n ==> (#[trigger] seventh(data, i) % 2 == 1) == (i == n - 1)
    &&& data[7 * n] == 0x03
    &&& data[7 * n + 1] == 0xF0
    &&& data.skip(7 * n + 2) == ui.info
}

/// A callsign with its SSID: nothing for zero, else a dash and the number.
pub proof fn law_ssid_written(ssid: nat)
    requires
        ssid < 16,
    ensures
        frame::ssid_suffix(ssid) == if ssid == 0 {
            Seq::<char>::empty()
        } else if ssid < 10 {
            seq!['-', (48 + ssid) as char]
        } else {
            seq!['-', '1', (38 + ssid) as char]
        },
{
    reveal_with_fuel(crate::text::decimal, 3);
    if ssid >= 10 {
        assert(ssid / 10 == 1 && ssid % 10 == ssid - 10);
        assert(crate::text::decimal(ssid) =~= seq!['1', (38 + ssid) as char]);
        assert(frame::ssid_suffix(ssid) =~= seq!['-', '1', (38 + ssid) as char]);
    } else if ssid > 0 {
        assert(frame::ssid_suffix(ssid) =~= seq!['-', (48 + ssid) as char]);
    }
}

proof fn lemma_holds_len(field: Seq<u8>, station: Station, i: int)
    requires
        station.valid(),
        holds(field, station),
        0 <= i <= station.base.len(),
    ensures
        frame::base_len(field, i) == station.base.len(),
    decreases station.base.len() - i,
{
    if i < station.base.len() {
        assert('A' <= station.base[i] <= 'Z' || '0' <= station.base[i] <= '9');
        assert(field[i] as int / 2 == station.base[i] as int);
        lemma_holds_len(field, station, i + 1);
    } else if i < 6 {
        assert(field[i] as int / 2 == 32);
    }
}

/// A field that holds an address is read as that address.
proof fn lemma_holds(field: Seq<u8>, station: Station)
    requires
        station.valid(),
        holds(field, station),
    ensures
        frame::callsign_ok(field),
        frame::address_text(field) == station.text(),
{
    lemma_holds_len(field, station, 0);
    let n = station.base.len() as int;
    assert forall|i: int| 0 <= i < n implies frame::callsign_char((#[trigger] field[i]) / 2) by {
        assert('A' <= station.base[i] <= 'Z' || '0' <= station.base[i] <= '9');
    }
    assert forall|i: int| n <= i < 6 implies (#[trigger] field[i]) / 2 == 32 by {
        assert(field[i] as int / 2 == 32);
    }
    assert(Seq::new(n as nat, |i: int| (field[i] / 2) as char) =~= station.base) by {
        assert forall|i: int| 0 <= i < n implies (field[i] / 2) as char == station.base[i] by {
            assert(field[i] as int / 2 == station.base[i] as int);
        }
    }
    assert(frame::ssid_of(field) == station.ssid);
}

/// The address in a field that parses.
spec fn station_in(field: Seq<u8>) -> Station {
    Station {
        base: Seq::new(frame::base_len(field, 0) as nat, |i: int| (field[i] / 2) as char),
        ssid: frame::ssid_of(field),
    }
}

proof fn lemma_station_in(field: Seq<u8>)
    requires
        field.len() == 7,
        frame::callsign_ok(field),
    ensures
        station_in(field).valid(),
        holds(field, station_in(field)),
{
    let st = station_in(field);
    lemma_base_bound(field, 0);
    assert forall|i: int| 0 <= i < st.base.len() implies 'A' <= #[trigger] st.base[i] <= 'Z' || '0'
        <= st.base[i] <= '9' by {
        assert(frame::callsign_char(field[i] / 2));
    }
    assert forall|i: int| 0 <= i < 6 implies (#[trigger] field[i]) as int / 2 == if i
        < st.base.len() {
        st.base[i] as int
    } else {
        32
    } by {
        if i < st.base.len() {
            assert(frame::callsign_char(field[i] / 2));
        } else {
            assert(field[i] / 2 == 32);
        }
    }
}

proof fn lemma_base_bound(field: Seq<u8>, i: int)
    requires
        0 <= i <= 6,
    ensures
        i <= frame::base_len(field, i) <= 6,
    decreases 6 - i,
{
    if i < 6 && field[i] / 2 != 32 {
        lemma_base_bound(field, i + 1);
    }
}

/// Parsing accepts exactly the UI frames with valid addresses and reads what they carry:
/// bytes that carry a frame parse as its content, whatever their bits without meaning are.
pub proof fn law_carried_frame_parses(data: Seq<u8>, ui: UiFrame)
    requires
        ui.valid(),
        carries(data, ui),
    ensures
        frame::parsed(data) == Some(ui.content()),
        ({
            let f = frame::parsed(data)->0;
            &&& f.source == ui.source.base + frame::ssid_suffix(ui.source.ssid)
            &&& f.destination == ui.destination.base + frame::ssid_suffix(ui.destination.ssid)
            &&& f.via.len() == ui.path.len()
            &&& f.via_heard.len() == ui.path.len()
            &&& forall|i: int|
                0 <= i < ui.path.len() ==> #[trigger] f.via[i] == ui.path[i].station.base
                    + frame::ssid_suffix(ui.path[i].station.ssid)
            &&& forall|i: int|
                0 <= i < ui.path.len() ==> #[trigger] f.via_heard[i] == ui.path[i].heard
            &&& f.info == ui.info
        }),
{
    let n = ui.path.len() as int + 2;
    lemma_carried_count(data, ui, 1);
    assert(frame::field_at(data, 0) =~= data.subrange(0, 7));
    assert(frame::field_at(data, 1) =~= data.subrange(7, 14));
    lemma_holds(data.subrange(0, 7), ui.destination);
    lemma_holds(data.subrange(7, 14), ui.source);
    assert forall|i: int| 0 <= i < n implies frame::callsign_ok(
        #[trigger] frame::field_at(data, i),
    ) by {
        if i >= 2 {
            let h = ui.path[i - 2];
            assert(frame::field_at(data, i) =~= data.subrange(7 * (i - 2) + 14, 7 * (i - 2) + 21));
            lemma_holds(frame::field_at(data, i), h.station);
        }
    }
    let got = frame::parsed(data)->0;
    assert forall|i: int| 0 <= i < ui.path.len() implies got.via[i] == ui.content().via[i]
        && got.via_heard[i] == ui.content().via_heard[i] by {
        let h = ui.path[i];
        let f = frame::field_at(data, i + 2);
        assert(f =~= data.subrange(7 * i + 14, 7 * i + 21));
        assert(f[6] == data[7 * i + 20]);
        lemma_holds(f, h.station);
    }
    assert(got.via =~= ui.content().via);
    assert(got.via_heard =~= ui.content().via_heard);
}

proof fn lemma_carried_count(data: Seq<u8>, ui: UiFrame, i: int)
    requires
        ui.valid(),
        carries(data, ui),
        1 <= i < ui.path.len() + 2,
    ensures
        frame::field_count(data, i) == Some(ui.path.len() as int + 2),
    decreases ui.path.len() + 2 - i,
{
    assert(frame::field_at(data, i)[6] == data[7 * i + 6]);
    assert((seventh(data, i) % 2 == 1) == (i == ui.path.len() + 1));
    if i < ui.path.len() + 1 {
        lemma_carried_count(data, ui, i + 1);
    }
}

/// Whatever parses is a UI frame with valid addresses that carries what was read from it.
pub proof fn law_only_frames_parse(data: Seq<u8>)
    requires
        frame::parsed(data) is Some,
    ensures
        exists|ui: UiFrame| #[trigger]
            ui.valid() && carries(data, ui) && Some(ui.content()) == frame::parsed(data),
{
    let n = frame::field_count(data, 1)->0;
    frame::law_address_fields_counted(data);
    let hops = Seq::new(
        (n - 2) as nat,
        |i: int|
            Hop {
                station: station_in(frame::field_at(data, i + 2)),
                heard: frame::heard_bit(frame::field_at(data, i + 2)),
            },
    );
    let ui = UiFrame {
        destination: station_in(frame::field_at(data, 0)),
        source: station_in(frame::field_at(data, 1)),
        path: hops,
        info: data.skip(7 * n + 2),
    };
    assert(frame::callsign_ok(frame::field_at(data, 0)));
    assert(frame::callsign_ok(frame::field_at(data, 1)));
    lemma_station_in(frame::field_at(data, 0));
    lemma_station_in(frame::field_at(data, 1));
    assert(frame::field_at(data, 0) =~= data.subrange(0, 7));
    assert(frame::field_at(data, 1) =~= data.subrange(7, 14));
    assert forall|i: int| 0 <= i < ui.path.len() implies (#[trigger] ui.path[i]).station.valid()
        && holds(data.subrange(7 * i + 14, 7 * i + 21), ui.path[i].station) && ui.path[i].heard == (
    data[7 * i + 20] >= 0x80) by {
        let f = frame::field_at(data, i + 2);
        assert(f =~= data.subrange(7 * i + 14, 7 * i + 21));
        assert(f[6] == data[7 * i + 20]);
        assert(frame::callsign_ok(f));
        lemma_station_in(f);
    }
    lemma_ends(data, 1);
    assert(ui.valid());
    assert(carries(data, ui));
    law_carried_frame_parses(data, ui);
}

/// Only the last counted field is marked as the end.
proof fn lemma_ends(data: Seq<u8>, i: int)
    requires
        i >= 1,
        frame::field_count(data, i) is Some,
    ensures
        ({
            let n = frame::field_count(data, i)->0;
            &&& n > i
            &&& forall|j: int| i <= j < n ==> (#[trigger] seventh(data, j) % 2 == 1) == (j == n - 1)
        }),
    decreases data.len() - 7 * i,
{
    assert(frame::field_at(data, i)[6] == data[7 * i + 6]);
    if !frame::end_bit(frame::field_at(data, i)) {
        lemma_ends(data, i + 1);
    }
}

/// The frames differ at most in the last bytes of destination and source.
#[verifier::opaque]
spec fn same_elsewhere(data: Seq<u8>, other: Seq<u8>) -> bool {
    &&& data.len() == other.len()
    &&& forall|i: int| 0 <= i < data.len() && i != 6 && i != 13 ==> #[trigger] data[i] == other[i]
}

proof fn lemma_same_at(data: Seq<u8>, other: Seq<u8>, i: int)
    requires
        same_elsewhere(data, other),
        0 <= i < data.len(),
        i != 6,
        i != 13,
    ensures
        data[i] == other[i],
{
    reveal(same_elsewhere);
}

proof fn lemma_same_part(data: Seq<u8>, other: Seq<u8>, from: int, to: int)
    requires
        same_elsewhere(data, other),
        14 <= from <= to <= data.len(),
        data.len() == other.len(),
    ensures
        data.subrange(from, to) == other.subrange(from, to),
{
    reveal(same_elsewhere);
    assert forall|i: int| 0 <= i < to - from implies data.subrange(from, to)[i] == other.subrange(
        from,
        to,
    )[i] by {
        assert(data[from + i] == other[from + i]);
    }
    assert(data.subrange(from, to) =~= other.subrange(from, to));
}

proof fn lemma_same_address(data: Seq<u8>, other: Seq<u8>, k: int, station: Station)
    requires
        same_elsewhere(data, other),
        0 <= k <= 1,
        data.len() == other.len(),
        7 * k + 7 <= data.len(),
        (data[7 * k + 6] as int / 2) % 16 == (other[7 * k + 6] as int / 2) % 16,
        holds(data.subrange(7 * k, 7 * k + 7), station),
    ensures
        holds(other.subrange(7 * k, 7 * k + 7), station),
{
    let d = data.subrange(7 * k, 7 * k + 7);
    let e = other.subrange(7 * k, 7 * k + 7);
    assert forall|i: int| 0 <= i < 6 implies (#[trigger] e[i]) as int / 2 == if i
        < station.base.len() {
        station.base[i] as int
    } else {
        32
    } by {
        lemma_same_at(data, other, 7 * k + i);
        assert(d[i] == e[i]);
    }
    assert(d[6] == data[7 * k + 6] && e[6] == other[7 * k + 6]);
}

/// The top and reserved bits of destination and source, which senders use to mark commands
/// and responses, and the end bit of the destination change nothing in what is read.
pub proof fn law_command_bits_ignored(data: Seq<u8>, other: Seq<u8>)
    requires
        data.len() == other.len(),
        forall|i: int|
            0 <= i < data.len() && i != 6 && i != 13 ==> #[trigger] data[i] == other[i],
        data.len() > 6 ==> (data[6] as int / 2) % 16 == (other[6] as int / 2) % 16,
        data.len() > 13 ==> data[13] as int % 32 == other[13] as int % 32,
    ensures
        frame::parsed(data) == frame::parsed(other),
{
    assert(same_elsewhere(data, other) && same_elsewhere(other, data)) by {
        reveal(same_elsewhere);
        assert forall|i: int| 0 <= i < data.len() && i != 6 && i != 13 implies #[trigger] other[i]
            == data[i] by {
            assert(data[i] == other[i]);
        }
    }
    if frame::parsed(data) is Some {
        lemma_command_bits(data, other);
    }
    if frame::parsed(other) is Some {
        lemma_command_bits(other, data);
    }
}

proof fn lemma_command_bits(data: Seq<u8>, other: Seq<u8>)
    requires
        data.len() == other.len(),
        same_elsewhere(data, other),
        data.len() > 6 ==> (data[6] as int / 2) % 16 == (other[6] as int / 2) % 16,
        data.len() > 13 ==> data[13] as int % 32 == other[13] as int % 32,
        frame::parsed(data) is Some,
    ensures
        frame::parsed(other) == frame::parsed(data),
{
    law_only_frames_parse(data);
    let ui = choose|ui: UiFrame| #[trigger]
        ui.valid() && carries(data, ui) && Some(ui.content()) == frame::parsed(data);
    let n = ui.path.len() as int + 2;
    lemma_same_address(data, other, 0, ui.destination);
    lemma_same_address(data, other, 1, ui.source);
    assert forall|i: int| 0 <= i < ui.path.len() implies holds(
        other.subrange(7 * i + 14, 7 * i + 21),
        (#[trigger] ui.path[i]).station,
    ) && ui.path[i].heard == (other[7 * i + 20] >= 0x80) by {
        lemma_same_part(data, other, 7 * i + 14, 7 * i + 21);
        lemma_same_at(data, other, 7 * i + 20);
    }
    assert forall|i: int| 1 <= i < n implies (#[trigger] seventh(other, i) % 2 == 1) == (i == n
        - 1) by {
        assert((seventh(data, i) % 2 == 1) == (i == n - 1));
        if i != 1 {
            lemma_same_at(data, other, 7 * i + 6);
        }
    }
    lemma_same_at(data, other, 7 * n);
    lemma_same_at(data, other, 7 * n + 1);
    lemma_same_part(data, other, 7 * n + 2, data.len() as int);
    assert(other.skip(7 * n + 2) =~= other.subrange(7 * n + 2, other.len() as int));
    assert(data.skip(7 * n + 2) =~= data.subrange(7 * n + 2, data.len() as int));
    assert(carries(other, ui));
    law_carried_frame_parses(other, ui);
}

/// A frame is heard directly exactly if none of its path entries has repeated it.
pub proof fn law_direct_means_no_repeat(f: FrameView)
    ensures
        f.heard_direct() <==> !f.via_heard.contains(true),
{
    if !f.heard_direct() {
        let i = choose|i: int| 0 <= i < f.via_heard.len() && f.via_heard[i];
        assert(f.via_heard[i] == true);
    }
}

/// Which path entries are aliases depends on the part before the first dash alone.
pub proof fn law_alias_ignores_ssid(base: Seq<char>, suffix: Seq<char>)
    requires
        !base.contains('-'),
    ensures
        frame::aprs_alias(base + seq!['-'] + suffix) == frame::aprs_alias(base),
{
    let call = base + seq!['-'] + suffix;
    lemma_dash(call, base.len() as int, 0);
    lemma_dash(base, base.len() as int, 0);
    assert(frame::base_of(call) =~= base);
    assert(frame::base_of(base) =~= base);
}

/// The aliases are the words WIDE and TRACE, alone or with one digit behind them, and the
/// other routing words and gateway annotations; nothing else is one.
pub proof fn law_aliases(base: Seq<char>)
    requires
        !base.contains('-'),
    ensures
        frame::aprs_alias(base) <==> (base == "WIDE"@ || base == "TRACE"@ || base == "RELAY"@
            || base == "ECHO"@ || base == "GATE"@ || base == "NOGATE"@ || base == "RFONLY"@ || base
            == "TCPIP"@ || base == "TCPXX"@ || base == "IGATECALL"@ || exists|d: char|
            '0' <= d <= '9' && (base == #[trigger] "WIDE"@.push(d) || base == "TRACE"@.push(d))),
{
    lemma_dash(base, base.len() as int, 0);
    assert(frame::base_of(base) =~= base);
    if base.len() > 0 {
        let d = base.last();
        assert(base =~= base.drop_last().push(d));
        assert(base.drop_last() == "WIDE"@ ==> base == "WIDE"@.push(d));
        assert(base.drop_last() == "TRACE"@ ==> base == "TRACE"@.push(d));
        let _ = "WIDE"@.push(d);
    }
    assert forall|d: char|
        '0' <= d <= '9' && (base == #[trigger] "WIDE"@.push(d) || base == "TRACE"@.push(
            d,
        )) implies frame::wide_trace(base) by {
        assert(base.last() == d);
        assert("WIDE"@.push(d).drop_last() =~= "WIDE"@);
        assert("TRACE"@.push(d).drop_last() =~= "TRACE"@);
    }
}

proof fn lemma_dash(call: Seq<char>, n: int, i: int)
    requires
        0 <= i <= n <= call.len(),
        forall|j: int| 0 <= j < n ==> call[j] != '-',
        n < call.len() ==> call[n] == '-',
    ensures
        frame::dash_at(call, i) == n,
    decreases n - i,
{
    if i < n {
        lemma_dash(call, n, i + 1);
    }
}

} // verus!
