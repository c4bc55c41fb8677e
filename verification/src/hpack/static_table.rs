//! The HPACK static table data (RFC 7541 Appendix A): sixty-one fixed
//! header fields, stored as one text blob plus the span of each entry.

use vstd::prelude::*;

verus! {

/// The number of entries in the static table.
pub const STATIC_LEN: usize = 61;

/// The names and values of the static table, concatenated.
pub const STATIC_TEXT: [u8; 684] = [
    58, 97, 117, 116, 104, 111, 114, 105, 116, 121, 58, 109, 101,
    116, 104, 111, 100, 71, 69, 84, 58, 109, 101, 116, 104, 111,
    100, 80, 79, 83, 84, 58, 112, 97, 116, 104, 47, 58, 112,
    97, 116, 104, 47, 105, 110, 100, 101, 120, 46, 104, 116, 109,
    108, 58, 115, 99, 104, 101, 109, 101, 104, 116, 116, 112, 58,
    115, 99, 104, 101, 109, 101, 104, 116, 116, 112, 115, 58, 115,
    116, 97, 116, 117, 115, 50, 48, 48, 58, 115, 116, 97, 116,
    117, 115, 50, 48, 52, 58, 115, 116, 97, 116, 117, 115, 50,
    48, 54, 58, 115, 116, 97, 116, 117, 115, 51, 48, 52, 58,
    115, 116, 97, 116, 117, 115, 52, 48, 48, 58, 115, 116, 97,
    116, 117, 115, 52, 48, 52, 58, 115, 116, 97, 116, 117, 115,
    53, 48, 48, 97, 99, 99, 101, 112, 116, 45, 99, 104, 97,
    114, 115, 101, 116, 97, 99, 99, 101, 112, 116, 45, 101, 110,
    99, 111, 100, 105, 110, 103, 103, 122, 105, 112, 44, 32, 100,
    101, 102, 108, 97, 116, 101, 97, 99, 99, 101, 112, 116, 45,
    108, 97, 110, 103, 117, 97, 103, 101, 97, 99, 99, 101, 112,
    116, 45, 114, 97, 110, 103, 101, 115, 97, 99, 99, 101, 112,
    116, 97, 99, 99, 101, 115, 115, 45, 99, 111, 110, 116, 114,
    111, 108, 45, 97, 108, 108, 111, 119, 45, 111, 114, 105, 103,
    105, 110, 97, 103, 101, 97, 108, 108, 111, 119, 97, 117, 116,
    104, 111, 114, 105, 122, 97, 116, 105, 111, 110, 99, 97, 99,
    104, 101, 45, 99, 111, 110, 116, 114, 111, 108, 99, 111, 110,
    116, 101, 110, 116, 45, 100, 105, 115, 112, 111, 115, 105, 116,
    105, 111, 110, 99, 111, 110, 116, 101, 110, 116, 45, 101, 110,
    99, 111, 100, 105, 110, 103, 99, 111, 110, 116, 101, 110, 116,
    45, 108, 97, 110, 103, 117, 97, 103, 101, 99, 111, 110, 116,
    101, 110, 116, 45, 108, 101, 110, 103, 116, 104, 99, 111, 110,
    116, 101, 110, 116, 45, 108, 111, 99, 97, 116, 105, 111, 110,
    99, 111, 110, 116, 101, 110, 116, 45, 114, 97, 110, 103, 101,
    99, 111, 110, 116, 101, 110, 116, 45, 116, 121, 112, 101, 99,
    111, 111, 107, 105, 101, 100, 97, 116, 101, 101, 116, 97, 103,
    101, 120, 112, 101, 99, 116, 101, 120, 112, 105, 114, 101, 115,
    102, 114, 111, 109, 104, 111, 115, 116, 105, 102, 45, 109, 97,
    116, 99, 104, 105, 102, 45, 109, 111, 100, 105, 102, 105, 101,
    100, 45, 115, 105, 110, 99, 101, 105, 102, 45, 110, 111, 110,
    101, 45, 109, 97, 116, 99, 104, 105, 102, 45, 114, 97, 110,
    103, 101, 105, 102, 45, 117, 110, 109, 111, 100, 105, 102, 105,
    101, 100, 45, 115, 105, 110, 99, 101, 108, 97, 115, 116, 45,
    109, 111, 100, 105, 102, 105, 101, 100, 108, 105, 110, 107, 108,
    111, 99, 97, 116, 105, 111, 110, 109, 97, 120, 45, 102, 111,
    114, 119, 97, 114, 100, 115, 112, 114, 111, 120, 121, 45, 97,
    117, 116, 104, 101, 110, 116, 105, 99, 97, 116, 101, 112, 114,
    111, 120, 121, 45, 97, 117, 116, 104, 111, 114, 105, 122, 97,
    116, 105, 111, 110, 114, 97, 110, 103, 101, 114, 101, 102, 101,
    114, 101, 114, 114, 101, 102, 114, 101, 115, 104, 114, 101, 116,
    114, 121, 45, 97, 102, 116, 101, 114, 115, 101, 114, 118, 101,
    114, 115, 101, 116, 45, 99, 111, 111, 107, 105, 101, 115, 116,
    114, 105, 99, 116, 45, 116, 114, 97, 110, 115, 112, 111, 114,
    116, 45, 115, 101, 99, 117, 114, 105, 116, 121, 116, 114, 97,
    110, 115, 102, 101, 114, 45, 101, 110, 99, 111, 100, 105, 110,
    103, 117, 115, 101, 114, 45, 97, 103, 101, 110, 116, 118, 97,
    114, 121, 118, 105, 97, 119, 119, 119, 45, 97, 117, 116, 104,
    101, 110, 116, 105, 99, 97, 116, 101,
];

/// For each static entry: where its name starts, where its value starts and
/// where its value ends in [`STATIC_TEXT`].
pub const STATIC_SPANS: [(usize, usize, usize); 61] = [
    (0, 10, 10), // :authority
    (10, 17, 20), // :method: GET
    (20, 27, 31), // :method: POST
    (31, 36, 37), // :path: /
    (37, 42, 53), // :path: /index.html
    (53, 60, 64), // :scheme: http
    (64, 71, 76), // :scheme: https
    (76, 83, 86), // :status: 200
    (86, 93, 96), // :status: 204
    (96, 103, 106), // :status: 206
    (106, 113, 116), // :status: 304
    (116, 123, 126), // :status: 400
    (126, 133, 136), // :status: 404
    (136, 143, 146), // :status: 500
    (146, 160, 160), // accept-charset
    (160, 175, 188), // accept-encoding: gzip, deflate
    (188, 203, 203), // accept-language
    (203, 216, 216), // accept-ranges
    (216, 222, 222), // accept
    (222, 249, 249), // access-control-allow-origin
    (249, 252, 252), // age
    (252, 257, 257), // allow
    (257, 270, 270), // authorization
    (270, 283, 283), // cache-control
    (283, 302, 302), // content-disposition
    (302, 318, 318), // content-encoding
    (318, 334, 334), // content-language
    (334, 348, 348), // content-length
    (348, 364, 364), // content-location
    (364, 377, 377), // content-range
    (377, 389, 389), // content-type
    (389, 395, 395), // cookie
    (395, 399, 399), // date
    (399, 403, 403), // etag
    (403, 409, 409), // expect
    (409, 416, 416), // expires
    (416, 420, 420), // from
    (420, 424, 424), // host
    (424, 432, 432), // if-match
    (432, 449, 449), // if-modified-since
    (449, 462, 462), // if-none-match
    (462, 470, 470), // if-range
    (470, 489, 489), // if-unmodified-since
    (489, 502, 502), // last-modified
    (502, 506, 506), // link
    (506, 514, 514), // location
    (514, 526, 526), // max-forwards
    (526, 544, 544), // proxy-authenticate
    (544, 563, 563), // proxy-authorization
    (563, 568, 568), // range
    (568, 575, 575), // referer
    (575, 582, 582), // refresh
    (582, 593, 593), // retry-after
    (593, 599, 599), // server
    (599, 609, 609), // set-cookie
    (609, 634, 634), // strict-transport-security
    (634, 651, 651), // transfer-encoding
    (651, 661, 661), // user-agent
    (661, 665, 665), // vary
    (665, 668, 668), // via
    (668, 684, 684), // www-authenticate
];

/// The name of static entry `i` (0-based).
pub open spec fn static_name(i: int) -> Seq<u8> {
    STATIC_TEXT@.subrange(STATIC_SPANS@[i].0 as int, STATIC_SPANS@[i].1 as int)
}

/// The value of static entry `i` (0-based).
pub open spec fn static_value(i: int) -> Seq<u8> {
    STATIC_TEXT@.subrange(STATIC_SPANS@[i].1 as int, STATIC_SPANS@[i].2 as int)
}


} // verus!
