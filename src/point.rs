//! The data point that is written to storage for one record.

use vstd::prelude::*;
use crate::decode::{DecodedFields, device_id_of, field_text};
use crate::schema::FIELD_COUNT;

verus! {

/// A data point as values: identifier, seven measurements, timestamp.
pub struct PointModel {
    pub device_id: Seq<char>,
    pub temp: Seq<char>,
    pub hum: Seq<char>,
    pub pres: Seq<char>,
    pub cl1: Seq<char>,
    pub cl2: Seq<char>,
    pub rssi: Seq<char>,
    pub vbat: Seq<char>,
    pub time: int,
}

/// One timestamped measurement record, ready for storage. The identifier is a
/// tag; each measurement is the integer text of its wire field, `-?[0-9]+`,
/// which storage reads as a number; `time` is nanoseconds since the Unix epoch.
pub struct DataPoint {
    pub device_id: String,
    pub temp: String,
    pub hum: String,
    pub pres: String,
    pub cl1: String,
    pub cl2: String,
    pub rssi: String,
    pub vbat: String,
    pub time: i64,
}

impl View for DataPoint {
    type V = PointModel;

    open spec fn view(&self) -> PointModel {
        PointModel {
            device_id: self.device_id@,
            temp: self.temp@,
            hum: self.hum@,
            pres: self.pres@,
            cl1: self.cl1@,
            cl2: self.cl2@,
            rssi: self.rssi@,
            vbat: self.vbat@,
            time: self.time as int,
        }
    }
}

/// The point made of an identifier, the eight fields in wire order and a
/// timestamp. The measurements take fields one to seven, in order; field zero
/// is carried by the wire format but bound to no measurement, which keeps the
/// binding that deployed devices were built against.
pub open spec fn point_of(device_id: Seq<char>, values: Seq<Seq<char>>, time: int) -> PointModel {
    PointModel {
        device_id,
        temp: values[1],
        hum: values[2],
        pres: values[3],
        cl1: values[4],
        cl2: values[5],
        rssi: values[6],
        vbat: values[7],
        time,
    }
}

/// The text of the eight fields of record `p`, in wire order.
pub open spec fn record_values(p: Seq<u8>) -> Seq<Seq<char>> {
    Seq::new(FIELD_COUNT as nat, |j: int| field_text(p, j))
}

/// The point stored for record `p` at time `time`.
pub open spec fn record_point(p: Seq<u8>, time: int) -> PointModel {
    point_of(device_id_of(p), record_values(p), time)
}

/// Builds the point for decoded fields, stamped with `now`.
pub fn build(decoded: DecodedFields, now: i64) -> (r: DataPoint)
    requires
        decoded.values@.len() == FIELD_COUNT,
    ensures
        r@ == point_of(decoded.device_id@, decoded.values@.map_values(|v: String| v@), now as int),
{
    let DecodedFields { device_id, values } = decoded;
    let ghost v = values@;
    let mut rest = values;
    // take the fields from the back, leaving field zero
    let vbat = rest.pop().unwrap();
    let rssi = rest.pop().unwrap();
    let cl2 = rest.pop().unwrap();
    let cl1 = rest.pop().unwrap();
    let pres = rest.pop().unwrap();
    let hum = rest.pop().unwrap();
    let temp = rest.pop().unwrap();
    assert(temp == v[1] && hum == v[2] && pres == v[3] && cl1 == v[4]);
    assert(cl2 == v[5] && rssi == v[6] && vbat == v[7]);
    DataPoint { device_id, temp, hum, pres, cl1, cl2, rssi, vbat, time: now }
}

/// Building is deterministic: two points built from the same fields differ at
/// most in their timestamps, which are the ones given.
pub proof fn lemma_build_deterministic(device_id: Seq<char>, values: Seq<Seq<char>>, t1: int, t2: int)
    ensures
        point_of(device_id, values, t1) == (PointModel { time: t1, ..point_of(device_id, values, t2) }),
        point_of(device_id, values, t1).time == t1,
{
}

} // verus!
