//! The fixed 12-byte header that opens every message.
use vstd::prelude::*;

use crate::bits::{lemma_be_round_trip, as_bit_flag, be16, be16_bytes, bit_of, flag_byte, get_bit_flag, push_u16, read_u16};
use crate::error::DnsError;

verus! {

/// Whether a message asks or answers.
#[derive(Clone, Copy, Debug, PartialEq, Eq, Structural)]
pub enum QueryResponseIndicator {
    Query,
    Response,
}

/// The kind of query; codes without a name of their own keep their raw value.
#[derive(Clone, Copy, Debug, PartialEq, Eq, Structural)]
pub enum OperationCode {
    Query,
    IQuery,
    Status,
    Other(u8),
}

/// The outcome reported in a response.
#[derive(Clone, Copy, Debug, PartialEq, Eq, Structural)]
pub enum ResponseCode {
    NoError,
    FormatError,
    ServerFailure,
    NameError,
    NotImplemented,
    Refused,
}

/// The header of a message: its id, flags, codes and four record counts.
#[derive(Clone, Copy, Debug, PartialEq, Eq, Structural)]
pub struct Header {
    pub packet_id: u16,
    pub qr_ind: QueryResponseIndicator,
    pub op_code: OperationCode,
    pub is_auth_ans: bool,
    pub is_trunc: bool,
    pub is_rec_desired: bool,
    pub is_rec_available: bool,
    pub r_code: ResponseCode,
    pub qd_count: u16,
    pub an_count: u16,
    pub ns_count: u16,
    pub ar_count: u16,
}

/// The four-bit value an operation code is written as.
pub open spec fn op_code_value(op: OperationCode) -> u8 {
    match op {
        OperationCode::Query => 0,
        OperationCode::IQuery => 1,
        OperationCode::Status => 2,
        OperationCode::Other(v) => v,
    }
}

/// The operation code a four-bit value is read as.
pub open spec fn op_code_of(v: u8) -> OperationCode {
    if v == 0 {
        OperationCode::Query
    } else if v == 1 {
        OperationCode::IQuery
    } else if v == 2 {
        OperationCode::Status
    } else {
        OperationCode::Other(v)
    }
}

/// The four-bit value a response code is written as.
pub open spec fn r_code_value(r: ResponseCode) -> u8 {
    match r {
        ResponseCode::NoError => 0,
        ResponseCode::FormatError => 1,
        ResponseCode::ServerFailure => 2,
        ResponseCode::NameError => 3,
        ResponseCode::NotImplemented => 4,
        ResponseCode::Refused => 5,
    }
}

/// The response code a four-bit value is read as; values from 6 up have none.
pub open spec fn r_code_of(v: u8) -> Option<ResponseCode> {
    if v == 0 {
        Some(ResponseCode::NoError)
    } else if v == 1 {
        Some(ResponseCode::FormatError)
    } else if v == 2 {
        Some(ResponseCode::ServerFailure)
    } else if v == 3 {
        Some(ResponseCode::NameError)
    } else if v == 4 {
        Some(ResponseCode::NotImplemented)
    } else if v == 5 {
        Some(ResponseCode::Refused)
    } else {
        None
    }
}

/// Byte 2 of the header: QR in bit 7, the operation code in bits 3 to 6,
/// then AA, TC and RD in bits 2, 1 and 0.
pub open spec fn flags_byte(h: Header) -> u8 {
    flag_byte(h.qr_ind == QueryResponseIndicator::Response, 7) | (op_code_value(h.op_code) << 3u8)
        | flag_byte(h.is_auth_ans, 2) | flag_byte(h.is_trunc, 1) | flag_byte(h.is_rec_desired, 0)
}

/// Byte 3 of the header: RA in bit 7, the response code in bits 0 to 3.
pub open spec fn codes_byte(h: Header) -> u8 {
    flag_byte(h.is_rec_available, 7) | r_code_value(h.r_code)
}

/// The 12 bytes a header is written as.
pub open spec fn header_wire(h: Header) -> Seq<u8> {
    be16_bytes(h.packet_id) + seq![flags_byte(h), codes_byte(h)] + be16_bytes(h.qd_count)
        + be16_bytes(h.an_count) + be16_bytes(h.ns_count) + be16_bytes(h.ar_count)
}

/// What the first 12 bytes of `buf` decode to.
pub open spec fn header_decoded(buf: Seq<u8>) -> Result<Header, DnsError>
    recommends
        buf.len() >= 12,
{
    match r_code_of(buf[3] & 0xFu8) {
        Some(r_code) => Ok(
            Header {
                packet_id: be16(buf[0], buf[1]),
                qr_ind: if bit_of(buf[2], 7) {
                    QueryResponseIndicator::Response
                } else {
                    QueryResponseIndicator::Query
                },
                op_code: op_code_of((buf[2] >> 3u8) & 0xFu8),
                is_auth_ans: bit_of(buf[2], 2),
                is_trunc: bit_of(buf[2], 1),
                is_rec_desired: bit_of(buf[2], 0),
                is_rec_available: bit_of(buf[3], 7),
                r_code,
                qd_count: be16(buf[4], buf[5]),
                an_count: be16(buf[6], buf[7]),
                ns_count: be16(buf[8], buf[9]),
                ar_count: be16(buf[10], buf[11]),
            },
        ),
        None => Err(DnsError::MalformedHeader),
    }
}

impl Header {
    /// The operation code fits its four-bit field.
    pub open spec fn wf(&self) -> bool {
        op_code_value(self.op_code) < 16
    }

    /// Reads the header from the first 12 bytes of `buf`.
    pub fn deserialize(buf: &[u8]) -> (r: Result<Header, DnsError>)
        requires
            buf@.len() >= 12,
        ensures
            r == header_decoded(buf@),
    {
        let r_code = match Self::deserialize_r_code(buf[3]) {
            Some(r_code) => r_code,
            None => return Err(DnsError::MalformedHeader),
        };
        Ok(
            Header {
                packet_id: read_u16(buf, 0),
                qr_ind: Self::deserialize_qr_ind(buf[2]),
                op_code: Self::deserialize_op_code(buf[2]),
                is_auth_ans: get_bit_flag(buf[2], 2),
                is_trunc: get_bit_flag(buf[2], 1),
                is_rec_desired: get_bit_flag(buf[2], 0),
                is_rec_available: get_bit_flag(buf[3], 7),
                r_code,
                qd_count: read_u16(buf, 4),
                an_count: read_u16(buf, 6),
                ns_count: read_u16(buf, 8),
                ar_count: read_u16(buf, 10),
            },
        )
    }

    fn deserialize_qr_ind(flags: u8) -> (r: QueryResponseIndicator)
        ensures
            r == (if bit_of(flags, 7) {
                QueryResponseIndicator::Response
            } else {
                QueryResponseIndicator::Query
            }),
    {
        if get_bit_flag(flags, 7) {
            QueryResponseIndicator::Response
        } else {
            QueryResponseIndicator::Query
        }
    }

    fn serialize_qr_ind(qr_ind: QueryResponseIndicator) -> (r: u8)
        ensures
            r == flag_byte(qr_ind == QueryResponseIndicator::Response, 7),
    {
        as_bit_flag(
            match qr_ind {
                QueryResponseIndicator::Query => false,
                QueryResponseIndicator::Response => true,
            },
            7,
        )
    }

    fn deserialize_op_code(flags: u8) -> (r: OperationCode)
        ensures
            r == op_code_of((flags >> 3u8) & 0xFu8),
    {
        match (flags >> 3) & 0xF {
            0 => OperationCode::Query,
            1 => OperationCode::IQuery,
            2 => OperationCode::Status,
            v => OperationCode::Other(v),
        }
    }

    fn serialize_op_code(op_code: OperationCode) -> (r: u8)
        requires
            op_code_value(op_code) < 16,
        ensures
            r == op_code_value(op_code) << 3u8,
    {
        (match op_code {
            OperationCode::Query => 0,
            OperationCode::IQuery => 1,
            OperationCode::Status => 2,
            OperationCode::Other(v) => v,
        }) << 3
    }

    fn deserialize_r_code(codes: u8) -> (r: Option<ResponseCode>)
        ensures
            r == r_code_of(codes & 0xFu8),
    {
        match codes & 0xF {
            0 => Some(ResponseCode::NoError),
            1 => Some(ResponseCode::FormatError),
            2 => Some(ResponseCode::ServerFailure),
            3 => Some(ResponseCode::NameError),
            4 => Some(ResponseCode::NotImplemented),
            5 => Some(ResponseCode::Refused),
            _ => None,
        }
    }

    fn serialize_r_code(r_code: ResponseCode) -> (r: u8)
        ensures
            r == r_code_value(r_code),
    {
        match r_code {
            ResponseCode::NoError => 0,
            ResponseCode::FormatError => 1,
            ResponseCode::ServerFailure => 2,
            ResponseCode::NameError => 3,
            ResponseCode::NotImplemented => 4,
            ResponseCode::Refused => 5,
        }
    }

    /// Writes the header as its 12 bytes.
    pub fn serialize(&self) -> (r: Vec<u8>)
        requires
            self.wf(),
        ensures
            r@ == header_wire(*self),
    {
        let mut out: Vec<u8> = Vec::new();
        push_u16(&mut out, self.packet_id);
        let qr_ind = Self::serialize_qr_ind(self.qr_ind);
        let op_code = Self::serialize_op_code(self.op_code);
        let is_auth_ans = as_bit_flag(self.is_auth_ans, 2);
        let is_trunc = as_bit_flag(self.is_trunc, 1);
        let is_rec_desired = as_bit_flag(self.is_rec_desired, 0);
        out.push(qr_ind | op_code | is_auth_ans | is_trunc | is_rec_desired);
        let is_rec_available = as_bit_flag(self.is_rec_available, 7);
        let r_code = Self::serialize_r_code(self.r_code);
        out.push(is_rec_available | r_code);
        push_u16(&mut out, self.qd_count);
        push_u16(&mut out, self.an_count);
        push_u16(&mut out, self.ns_count);
        push_u16(&mut out, self.ar_count);
        assert(out@ =~= header_wire(*self));
        out
    }
}

proof fn lemma_flags_byte_fields(qr: bool, op: u8, aa: bool, tc: bool, rd: bool)
    by (bit_vector)
    requires
        op < 16,
    ensures
        ({
            let x = flag_byte(qr, 7) | (op << 3u8) | flag_byte(aa, 2) | flag_byte(tc, 1) | flag_byte(
                rd,
                0,
            );
            &&& bit_of(x, 7) == qr
            &&& (x >> 3u8) & 0xFu8 == op
            &&& bit_of(x, 2) == aa
            &&& bit_of(x, 1) == tc
            &&& bit_of(x, 0) == rd
        }),
{
}

proof fn lemma_codes_byte_fields(ra: bool, r: u8)
    by (bit_vector)
    requires
        r < 16,
    ensures
        ({
            let x = flag_byte(ra, 7) | r;
            &&& bit_of(x, 7) == ra
            &&& x & 0xFu8 == r
        }),
{
}

/// A header decodes from its own wire form to itself, whatever follows it,
/// provided its operation code is written as the variant it is read back as.
pub proof fn lemma_header_round_trip(h: Header, rest: Seq<u8>)
    requires
        h.wf(),
        op_code_of(op_code_value(h.op_code)) == h.op_code,
    ensures
        header_decoded(header_wire(h) + rest) == Ok::<Header, DnsError>(h),
{
    let buf = header_wire(h) + rest;
    lemma_flags_byte_fields(
        h.qr_ind == QueryResponseIndicator::Response,
        op_code_value(h.op_code),
        h.is_auth_ans,
        h.is_trunc,
        h.is_rec_desired,
    );
    lemma_codes_byte_fields(h.is_rec_available, r_code_value(h.r_code));
    lemma_be_round_trip(h.packet_id, 0);
    lemma_be_round_trip(h.qd_count, 0);
    lemma_be_round_trip(h.an_count, 0);
    lemma_be_round_trip(h.ns_count, 0);
    lemma_be_round_trip(h.ar_count, 0);
    assert(buf[2] == flags_byte(h));
    assert(buf[3] == codes_byte(h));
    let d = header_decoded(buf).unwrap();
    assert(d.qr_ind == h.qr_ind);
    assert(d == h);
}

/// A response code from 6 up in the low bits of byte 3 fails decoding.
pub proof fn lemma_unknown_r_code_rejected(buf: Seq<u8>)
    requires
        buf.len() >= 12,
        buf[3] & 0xFu8 >= 6,
    ensures
        header_decoded(buf) == Err::<Header, DnsError>(DnsError::MalformedHeader),
{
}

} // verus!
