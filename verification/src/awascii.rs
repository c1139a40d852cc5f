//! The 6-bit AwaSCII character set and its mapping to and from ASCII.
use vstd::prelude::*;

verus! {

/// The ASCII byte that stands for the AwaSCII code `code`; codes above 63 are
/// read as 63.
pub open spec fn ascii_of(code: u8) -> u8 {
    match code {
        0 => 65,
        1 => 87,
        2 => 97,
        3 => 119,
        4 => 74,
        5 => 69,
        6 => 76,
        7 => 89,
        8 => 72,
        9 => 79,
        10 => 83,
        11 => 73,
        12 => 85,
        13 => 77,
        14 => 106,
        15 => 101,
        16 => 108,
        17 => 121,
        18 => 104,
        19 => 111,
        20 => 115,
        21 => 105,
        22 => 117,
        23 => 109,
        24 => 80,
        25 => 67,
        26 => 78,
        27 => 84,
        28 => 112,
        29 => 99,
        30 => 110,
        31 => 116,
        32 => 66,
        33 => 68,
        34 => 70,
        35 => 71,
        36 => 82,
        37 => 98,
        38 => 100,
        39 => 102,
        40 => 103,
        41 => 114,
        42 => 48,
        43 => 49,
        44 => 50,
        45 => 51,
        46 => 52,
        47 => 53,
        48 => 54,
        49 => 55,
        50 => 56,
        51 => 57,
        52 => 32,
        53 => 46,
        54 => 44,
        55 => 33,
        56 => 96,
        57 => 40,
        58 => 41,
        59 => 126,
        60 => 95,
        61 => 47,
        62 => 59,
        _ => 10,
    }
}

/// The AwaSCII code of the ASCII byte `ascii`, if the character set has it.
pub open spec fn code_of(ascii: u8) -> Option<u8> {
    match ascii {
        65 => Some(0u8),
        87 => Some(1u8),
        97 => Some(2u8),
        119 => Some(3u8),
        74 => Some(4u8),
        69 => Some(5u8),
        76 => Some(6u8),
        89 => Some(7u8),
        72 => Some(8u8),
        79 => Some(9u8),
        83 => Some(10u8),
        73 => Some(11u8),
        85 => Some(12u8),
        77 => Some(13u8),
        106 => Some(14u8),
        101 => Some(15u8),
        108 => Some(16u8),
        121 => Some(17u8),
        104 => Some(18u8),
        111 => Some(19u8),
        115 => Some(20u8),
        105 => Some(21u8),
        117 => Some(22u8),
        109 => Some(23u8),
        80 => Some(24u8),
        67 => Some(25u8),
        78 => Some(26u8),
        84 => Some(27u8),
        112 => Some(28u8),
        99 => Some(29u8),
        110 => Some(30u8),
        116 => Some(31u8),
        66 => Some(32u8),
        68 => Some(33u8),
        70 => Some(34u8),
        71 => Some(35u8),
        82 => Some(36u8),
        98 => Some(37u8),
        100 => Some(38u8),
        102 => Some(39u8),
        103 => Some(40u8),
        114 => Some(41u8),
        48 => Some(42u8),
        49 => Some(43u8),
        50 => Some(44u8),
        51 => Some(45u8),
        52 => Some(46u8),
        53 => Some(47u8),
        54 => Some(48u8),
        55 => Some(49u8),
        56 => Some(50u8),
        57 => Some(51u8),
        32 => Some(52u8),
        46 => Some(53u8),
        44 => Some(54u8),
        33 => Some(55u8),
        96 => Some(56u8),
        40 => Some(57u8),
        41 => Some(58u8),
        126 => Some(59u8),
        95 => Some(60u8),
        47 => Some(61u8),
        59 => Some(62u8),
        10 => Some(63u8),
        _ => None,
    }
}

/// A character of the 6-bit AwaSCII character set.
#[derive(Debug, Clone, Copy, PartialEq, Eq, Hash, Structural)]
pub struct AwaSCII(u8);

impl View for AwaSCII {
    type V = u8;

    closed spec fn view(&self) -> u8 {
        self.0
    }
}

impl AwaSCII {
    #[verifier::type_invariant]
    spec fn six_bits(self) -> bool {
        self.0 < 64
    }

    /// The character with the code `awascii`, which the caller knows to be a
    /// 6-bit number.
    pub fn new_unchecked(awascii: u8) -> (r: Self)
        requires
            awascii < 64,
        ensures
            r@ == awascii,
    {
        AwaSCII(awascii)
    }

    /// The character with the code `awascii`, if that is a 6-bit number.
    pub fn new(awascii: u8) -> (r: Option<Self>)
        ensures
            awascii < 64 ==> r is Some && r->0@ == awascii,
            awascii >= 64 ==> r is None,
    {
        if awascii >= 64 {
            return None;
        }
        Some(AwaSCII(awascii))
    }

    /// The character that the ASCII byte `ascii` stands for; `None` where the
    /// character set has no such character.
    pub fn from_ascii(ascii: u8) -> (r: Option<Self>)
        ensures
            code_of(ascii) is Some ==> r is Some && r->0@ == code_of(ascii)->0,
            code_of(ascii) is None ==> r is None,
    {
        let code: Option<u8> = match ascii {
            65 => Some(0u8),
            87 => Some(1u8),
            97 => Some(2u8),
            119 => Some(3u8),
            74 => Some(4u8),
            69 => Some(5u8),
            76 => Some(6u8),
            89 => Some(7u8),
            72 => Some(8u8),
            79 => Some(9u8),
            83 => Some(10u8),
            73 => Some(11u8),
            85 => Some(12u8),
            77 => Some(13u8),
            106 => Some(14u8),
            101 => Some(15u8),
            108 => Some(16u8),
            121 => Some(17u8),
            104 => Some(18u8),
            111 => Some(19u8),
            115 => Some(20u8),
            105 => Some(21u8),
            117 => Some(22u8),
            109 => Some(23u8),
            80 => Some(24u8),
            67 => Some(25u8),
            78 => Some(26u8),
            84 => Some(27u8),
            112 => Some(28u8),
            99 => Some(29u8),
            110 => Some(30u8),
            116 => Some(31u8),
            66 => Some(32u8),
            68 => Some(33u8),
            70 => Some(34u8),
            71 => Some(35u8),
            82 => Some(36u8),
            98 => Some(37u8),
            100 => Some(38u8),
            102 => Some(39u8),
            103 => Some(40u8),
            114 => Some(41u8),
            48 => Some(42u8),
            49 => Some(43u8),
            50 => Some(44u8),
            51 => Some(45u8),
            52 => Some(46u8),
            53 => Some(47u8),
            54 => Some(48u8),
            55 => Some(49u8),
            56 => Some(50u8),
            57 => Some(51u8),
            32 => Some(52u8),
            46 => Some(53u8),
            44 => Some(54u8),
            33 => Some(55u8),
            96 => Some(56u8),
            40 => Some(57u8),
            41 => Some(58u8),
            126 => Some(59u8),
            95 => Some(60u8),
            47 => Some(61u8),
            59 => Some(62u8),
            10 => Some(63u8),
            _ => None,
        };
        match code {
            Some(c) => Some(AwaSCII(c)),
            None => None,
        }
    }

    /// The ASCII byte of this character.
    pub fn to_ascii(&self) -> (r: u8)
        ensures
            r == ascii_of(self@),
    {
        match self.0 {
            0 => 65,
            1 => 87,
            2 => 97,
            3 => 119,
            4 => 74,
            5 => 69,
            6 => 76,
            7 => 89,
            8 => 72,
            9 => 79,
            10 => 83,
            11 => 73,
            12 => 85,
            13 => 77,
            14 => 106,
            15 => 101,
            16 => 108,
            17 => 121,
            18 => 104,
            19 => 111,
            20 => 115,
            21 => 105,
            22 => 117,
            23 => 109,
            24 => 80,
            25 => 67,
            26 => 78,
            27 => 84,
            28 => 112,
            29 => 99,
            30 => 110,
            31 => 116,
            32 => 66,
            33 => 68,
            34 => 70,
            35 => 71,
            36 => 82,
            37 => 98,
            38 => 100,
            39 => 102,
            40 => 103,
            41 => 114,
            42 => 48,
            43 => 49,
            44 => 50,
            45 => 51,
            46 => 52,
            47 => 53,
            48 => 54,
            49 => 55,
            50 => 56,
            51 => 57,
            52 => 32,
            53 => 46,
            54 => 44,
            55 => 33,
            56 => 96,
            57 => 40,
            58 => 41,
            59 => 126,
            60 => 95,
            61 => 47,
            62 => 59,
            _ => 10,
        }
    }

    /// The code of this character, a number below 64.
    pub fn code(&self) -> (r: u8)
        ensures
            r == self@,
            r < 64,
    {
        proof {
            use_type_invariant(self);
        }
        self.0
    }
}

/// The codes of a text of AwaSCII characters.
pub open spec fn codes(text: Seq<AwaSCII>) -> Seq<u8> {
    Seq::new(text.len(), |i: int| text[i]@)
}

/// Every AwaSCII code is found again from its ASCII byte.
pub proof fn lemma_ascii_round_trip(code: u8)
    requires
        code < 64,
    ensures
        code_of(ascii_of(code)) == Some(code),
{
}

/// An ASCII byte that has an AwaSCII code is the byte of that code.
pub proof fn lemma_code_round_trip(ascii: u8)
    requires
        code_of(ascii) is Some,
    ensures
        code_of(ascii)->0 < 64,
        ascii_of(code_of(ascii)->0) == ascii,
{
}

} // verus!
