use vstd::prelude::*;

verus! {

/// A character level.  The experience needed to hold level `n` grows
/// exponentially: level `n` corresponds to `floor(e^n)` experience points.
#[derive(Clone, Copy, Debug, PartialEq, Eq, Structural, PartialOrd, Ord, Hash)]
pub struct Lvl(pub i32);

impl Default for Lvl {
    /// A fresh character starts at level 1.
    fn default() -> (r: Self)
        ensures
            r.0 == 1,
    {
        Lvl(1)
    }
}

/// `floor(e^n)` for `n` in `0..=88` (and 0 outside that range);
/// `e^89` no longer fits in a `u128`.
pub open spec fn xp_at(n: int) -> u128 {
    if n == 0 {
        1
    } else if n == 1 {
        2
    } else if n == 2 {
        7
    } else if n == 3 {
        20
    } else if n == 4 {
        54
    } else if n == 5 {
        148
    } else if n == 6 {
        403
    } else if n == 7 {
        1096
    } else if n == 8 {
        2980
    } else if n == 9 {
        8103
    } else if n == 10 {
        22026
    } else if n == 11 {
        59874
    } else if n == 12 {
        162754
    } else if n == 13 {
        442413
    } else if n == 14 {
        1202604
    } else if n == 15 {
        3269017
    } else if n == 16 {
        8886110
    } else if n == 17 {
        24154952
    } else if n == 18 {
        65659969
    } else if n == 19 {
        178482300
    } else if n == 20 {
        485165195
    } else if n == 21 {
        1318815734
    } else if n == 22 {
        3584912846
    } else if n == 23 {
        9744803446
    } else if n == 24 {
        26489122129
    } else if n == 25 {
        72004899337
    } else if n == 26 {
        195729609428
    } else if n == 27 {
        532048240601
    } else if n == 28 {
        1446257064291
    } else if n == 29 {
        3931334297144
    } else if n == 30 {
        10686474581524
    } else if n == 31 {
        29048849665247
    } else if n == 32 {
        78962960182680
    } else if n == 33 {
        214643579785916
    } else if n == 34 {
        583461742527454
    } else if n == 35 {
        1586013452313430
    } else if n == 36 {
        4311231547115195
    } else if n == 37 {
        11719142372802611
    } else if n == 38 {
        31855931757113756
    } else if n == 39 {
        86593400423993746
    } else if n == 40 {
        235385266837019985
    } else if n == 41 {
        639843493530054949
    } else if n == 42 {
        1739274941520501047
    } else if n == 43 {
        4727839468229346561
    } else if n == 44 {
        12851600114359308275
    } else if n == 45 {
        34934271057485095348
    } else if n == 46 {
        94961194206024488745
    } else if n == 47 {
        258131288619006739623
    } else if n == 48 {
        701673591209763173865
    } else if n == 49 {
        1907346572495099690525
    } else if n == 50 {
        5184705528587072464087
    } else if n == 51 {
        14093490824269387964492
    } else if n == 52 {
        38310080007165768493035
    } else if n == 53 {
        104137594330290877971834
    } else if n == 54 {
        283075330327469390044206
    } else if n == 55 {
        769478526514201713818274
    } else if n == 56 {
        2091659496012996153907071
    } else if n == 57 {
        5685719999335932222640348
    } else if n == 58 {
        15455389355901039303530766
    } else if n == 59 {
        42012104037905142549565934
    } else if n == 60 {
        114200738981568428366295718
    } else if n == 61 {
        310429793570191990870734214
    } else if n == 62 {
        843835666874145448907332948
    } else if n == 63 {
        2293783159469609879099352840
    } else if n == 64 {
        6235149080811616882909238708
    } else if n == 65 {
        16948892444103337141417836114
    } else if n == 66 {
        46071866343312915426773184428
    } else if n == 67 {
        125236317084221378051352196074
    } else if n == 68 {
        340427604993174052137690718700
    } else if n == 69 {
        925378172558778760024239791668
    } else if n == 70 {
        2515438670919167006265781174252
    } else if n == 71 {
        6837671229762743866755892826677
    } else if n == 72 {
        18586717452841279803403701812545
    } else if n == 73 {
        50523936302761041945570383321857
    } else if n == 74 {
        137338297954017618778418852980853
    } else if n == 75 {
        373324199679900164025490831726470
    } else if n == 76 {
        1014800388113888727832461784131716
    } else if n == 77 {
        2758513454523170206286469819902661
    } else if n == 78 {
        7498416996990120434675630591224060
    } else if n == 79 {
        20382810665126687668323137537172632
    } else if n == 80 {
        55406223843935100525711733958316612
    } else if n == 81 {
        150609731458503054835259413016767498
    } else if n == 82 {
        409399696212745469666091422932782904
    } else if n == 83 {
        1112863754791759412087071478183940805
    } else if n == 84 {
        3025077322201142338266566396443428742
    } else if n == 85 {
        8223012714622913510304328016407774695
    } else if n == 86 {
        22352466037347150474430657323327147398
    } else if n == 87 {
        60760302250568721495223289381302760752
    } else if n == 88 {
        165163625499400185552832979626485876706
    } else {
        0
    }
}

/// The experience threshold of level `n`.
fn xp_value(n: i32) -> (r: u128)
    requires
        0 <= n <= 88,
    ensures
        r == xp_at(n as int),
{
    match n {
        0 => 1,
        1 => 2,
        2 => 7,
        3 => 20,
        4 => 54,
        5 => 148,
        6 => 403,
        7 => 1096,
        8 => 2980,
        9 => 8103,
        10 => 22026,
        11 => 59874,
        12 => 162754,
        13 => 442413,
        14 => 1202604,
        15 => 3269017,
        16 => 8886110,
        17 => 24154952,
        18 => 65659969,
        19 => 178482300,
        20 => 485165195,
        21 => 1318815734,
        22 => 3584912846,
        23 => 9744803446,
        24 => 26489122129,
        25 => 72004899337,
        26 => 195729609428,
        27 => 532048240601,
        28 => 1446257064291,
        29 => 3931334297144,
        30 => 10686474581524,
        31 => 29048849665247,
        32 => 78962960182680,
        33 => 214643579785916,
        34 => 583461742527454,
        35 => 1586013452313430,
        36 => 4311231547115195,
        37 => 11719142372802611,
        38 => 31855931757113756,
        39 => 86593400423993746,
        40 => 235385266837019985,
        41 => 639843493530054949,
        42 => 1739274941520501047,
        43 => 4727839468229346561,
        44 => 12851600114359308275,
        45 => 34934271057485095348,
        46 => 94961194206024488745,
        47 => 258131288619006739623,
        48 => 701673591209763173865,
        49 => 1907346572495099690525,
        50 => 5184705528587072464087,
        51 => 14093490824269387964492,
        52 => 38310080007165768493035,
        53 => 104137594330290877971834,
        54 => 283075330327469390044206,
        55 => 769478526514201713818274,
        56 => 2091659496012996153907071,
        57 => 5685719999335932222640348,
        58 => 15455389355901039303530766,
        59 => 42012104037905142549565934,
        60 => 114200738981568428366295718,
        61 => 310429793570191990870734214,
        62 => 843835666874145448907332948,
        63 => 2293783159469609879099352840,
        64 => 6235149080811616882909238708,
        65 => 16948892444103337141417836114,
        66 => 46071866343312915426773184428,
        67 => 125236317084221378051352196074,
        68 => 340427604993174052137690718700,
        69 => 925378172558778760024239791668,
        70 => 2515438670919167006265781174252,
        71 => 6837671229762743866755892826677,
        72 => 18586717452841279803403701812545,
        73 => 50523936302761041945570383321857,
        74 => 137338297954017618778418852980853,
        75 => 373324199679900164025490831726470,
        76 => 1014800388113888727832461784131716,
        77 => 2758513454523170206286469819902661,
        78 => 7498416996990120434675630591224060,
        79 => 20382810665126687668323137537172632,
        80 => 55406223843935100525711733958316612,
        81 => 150609731458503054835259413016767498,
        82 => 409399696212745469666091422932782904,
        83 => 1112863754791759412087071478183940805,
        84 => 3025077322201142338266566396443428742,
        85 => 8223012714622913510304328016407774695,
        86 => 22352466037347150474430657323327147398,
        87 => 60760302250568721495223289381302760752,
        88 => 165163625499400185552832979626485876706,
        _ => 0,
    }
}

/// The greatest index `k <= n` whose threshold is at most `xp`
/// (0 when even `xp_at(0)` is above `xp`).
pub open spec fn xp_index(xp: u128, n: int) -> int
    decreases n,
{
    if n <= 0 {
        0
    } else if xp_at(n) <= xp {
        n
    } else {
        xp_index(xp, n - 1)
    }
}

/// What `Lvl::to_xp` returns: the threshold of the level, clamped at the
/// ends of the table.
pub open spec fn spec_to_xp(l: Lvl) -> u128 {
    if l.0 < 0 {
        0
    } else if l.0 > 88 {
        u128::MAX
    } else {
        xp_at(l.0 as int)
    }
}

/// What `Lvl::from_xp` returns: one past the greatest level whose threshold
/// the experience reaches, and level 0 for no experience at all.
pub open spec fn spec_from_xp(xp: u128) -> Lvl {
    if xp == 0 {
        Lvl(0)
    } else {
        Lvl((xp_index(xp, 88) + 1) as i32)
    }
}

impl Lvl {
    /// The experience needed to hold this level.
    pub fn to_xp(&self) -> (r: u128)
        ensures
            r == spec_to_xp(*self),
    {
        if self.0 < 0 {
            0
        } else if self.0 > 88 {
            u128::MAX
        } else {
            xp_value(self.0)
        }
    }

    /// The level a character with `xp` experience holds.  A character
    /// holding exactly a level's threshold is past that level's boundary:
    /// `from_xp(to_xp(n))` is `Lvl(n + 1)`.
    pub fn from_xp(xp: u128) -> (r: Self)
        ensures
            r == spec_from_xp(xp),
    {
        let mut n: i32 = 88;
        let mut t: u128 = xp_value(88);
        while n > 0 && t > xp
            invariant
                0 <= n <= 88,
                t == xp_at(n as int),
                xp_index(xp, 88) == xp_index(xp, n as int),
            decreases n,
        {
            n = n - 1;
            t = xp_value(n);
        }
        if xp == 0 {
            Lvl(0)
        } else {
            Lvl(n + 1)
        }
    }
}

/// The greatest reached index lies in `0..=m`.
proof fn lemma_xp_index_le(xp: u128, m: int)
    requires
        0 <= m,
    ensures
        0 <= xp_index(xp, m) <= m,
    decreases m,
{
    if m > 0 && xp_at(m) > xp {
        lemma_xp_index_le(xp, m - 1);
    }
}

/// If some threshold `xp_at(n)` is at most `xp`, the greatest reached index
/// over a range containing `n` is at least `n`.
proof fn lemma_xp_index_ge(xp: u128, n: int, m: int)
    requires
        0 <= n <= m <= 88,
        xp_at(n) <= xp,
    ensures
        xp_index(xp, m) >= n,
    decreases m,
{
    if m > n && xp_at(m) > xp {
        lemma_xp_index_ge(xp, n, m - 1);
    }
}

/// Converting a level to experience and back never loses the level:
/// `Lvl::from_xp(Lvl(n).to_xp())` is at least `Lvl(n)` for `n` in `1..=20`.
pub proof fn lemma_from_xp_round_trip(n: i32)
    requires
        1 <= n <= 20,
    ensures
        spec_from_xp(spec_to_xp(Lvl(n))).0 >= n,
{
    let xp = spec_to_xp(Lvl(n));
    assert(xp == xp_at(n as int));
    assert(xp >= 1);
    lemma_xp_index_ge(xp, n as int, 88);
    lemma_xp_index_le(xp, 88);
}

} // verus!
