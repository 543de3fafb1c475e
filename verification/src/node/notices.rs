//! What users and the public are told after a block was executed.

use vstd::prelude::*;

verus! {

/// The side of the taker.
#[derive(Clone, Copy, Debug, PartialEq, Eq)]
pub enum Side {
    Bid,
    Ask,
}

impl Side {
    /// The public name of the side.
    pub fn name(&self) -> (r: &'static str)
        ensures
            *self == Side::Bid ==> r@ == "buy"@,
            *self == Side::Ask ==> r@ == "sell"@,
    {
        match self {
            Side::Bid => "buy",
            Side::Ask => "sell",
        }
    }
}

/// What the application knows of an account in a market after the block.
#[derive(Clone, Copy, Debug, PartialEq, Eq)]
pub struct AccountInfo {
    pub balance: i64,
    pub locked: i64,
    pub size: i64,
    pub entry_price: i64,
    pub unrealized_pnl: i64,
}

/// A trade, with the accounts of both sides and the mark price of its market.
pub struct Fill {
    pub maker: String,
    pub taker: String,
    pub symbol: String,
    pub maker_order_id: String,
    pub side: Side,
    pub price: i64,
    pub size: i64,
    pub maker_account: Option<AccountInfo>,
    pub taker_account: Option<AccountInfo>,
    pub mark_price: Option<i64>,
}

/// A change of an order.
pub struct OrderUpdate {
    pub trader: String,
    pub order_id: String,
    pub symbol: String,
    pub status: String,
    pub filled: i64,
    pub remaining: i64,
}

/// A deposit, with the account that it went to.
pub struct Deposit {
    pub trader: String,
    pub account: Option<AccountInfo>,
}

/// A forced reduction of a position, with the account and the mark price.
pub struct AdlEvent {
    pub address: String,
    pub symbol: String,
    pub size_reduced: i64,
    pub close_price: i64,
    pub realized_pnl: i64,
    pub triggering_liquidation: String,
    pub timestamp: u64,
    pub account: Option<AccountInfo>,
    pub mark_price: Option<i64>,
}

/// A funding payment, with the account.
pub struct FundingPayment {
    pub address: String,
    pub symbol: String,
    pub payment: i64,
    pub position_size: i64,
    pub funding_rate_bps: i64,
    pub timestamp: u64,
    pub account: Option<AccountInfo>,
}

/// A liquidation, with the account and the mark price.
pub struct Liquidation {
    pub address: String,
    pub symbol: String,
    pub size: i64,
    pub price: i64,
    pub pnl: i64,
    pub was_long: bool,
    pub account: Option<AccountInfo>,
    pub mark_price: Option<i64>,
}

/// All that a block has brought about, in the order of execution.
pub struct BlockEvents {
    pub fills: Vec<Fill>,
    pub order_updates: Vec<OrderUpdate>,
    pub deposits: Vec<Deposit>,
    pub adl: Vec<AdlEvent>,
    pub funding: Vec<FundingPayment>,
    pub liquidations: Vec<Liquidation>,
}

/// Something to send. All but trades go to the accounts that they name.
#[derive(Debug, PartialEq, Eq)]
pub enum Notice {
    Fill {
        maker: String,
        taker: String,
        symbol: String,
        order_id: String,
        side: Side,
        price: i64,
        size: i64,
        maker_fee: i64,
        taker_fee: i64,
        timestamp: u64,
    },
    Trade { symbol: String, price: i64, size: i64, side: Side, timestamp: u64 },
    Position {
        address: String,
        symbol: String,
        size: i64,
        entry_price: i64,
        mark_price: i64,
        unrealized_pnl: i64,
        timestamp: u64,
    },
    Balance { address: String, balance: i64, available: i64, locked: i64, timestamp: u64 },
    Order {
        trader: String,
        order_id: String,
        symbol: String,
        status: String,
        filled: i64,
        remaining: i64,
        timestamp: u64,
    },
    Adl {
        address: String,
        symbol: String,
        size_reduced: i64,
        close_price: i64,
        realized_pnl: i64,
        triggering_liquidation: String,
        timestamp: u64,
    },
    Funding {
        address: String,
        symbol: String,
        payment: i64,
        position_size: i64,
        funding_rate_bps: i64,
        timestamp: u64,
    },
    Liquidated {
        address: String,
        symbol: String,
        size: i64,
        price: i64,
        pnl: i64,
        was_long: bool,
        timestamp: u64,
    },
}

/// The contents of a notice.
pub ghost enum NoticeView {
    Fill {
        maker: Seq<char>,
        taker: Seq<char>,
        symbol: Seq<char>,
        order_id: Seq<char>,
        side: Side,
        price: i64,
        size: i64,
        maker_fee: int,
        taker_fee: int,
        timestamp: u64,
    },
    Trade { symbol: Seq<char>, price: i64, size: i64, side: Side, timestamp: u64 },
    Position {
        address: Seq<char>,
        symbol: Seq<char>,
        size: i64,
        entry_price: i64,
        mark_price: i64,
        unrealized_pnl: i64,
        timestamp: u64,
    },
    Balance { address: Seq<char>, balance: i64, available: i64, locked: i64, timestamp: u64 },
    Order {
        trader: Seq<char>,
        order_id: Seq<char>,
        symbol: Seq<char>,
        status: Seq<char>,
        filled: i64,
        remaining: i64,
        timestamp: u64,
    },
    Adl {
        address: Seq<char>,
        symbol: Seq<char>,
        size_reduced: i64,
        close_price: i64,
        realized_pnl: i64,
        triggering_liquidation: Seq<char>,
        timestamp: u64,
    },
    Funding {
        address: Seq<char>,
        symbol: Seq<char>,
        payment: i64,
        position_size: i64,
        funding_rate_bps: i64,
        timestamp: u64,
    },
    Liquidated {
        address: Seq<char>,
        symbol: Seq<char>,
        size: i64,
        price: i64,
        pnl: i64,
        was_long: bool,
        timestamp: u64,
    },
}

impl vstd::view::View for Notice {
    type V = NoticeView;

    open spec fn view(&self) -> NoticeView {
        match *self {
            Notice::Fill {
                maker,
                taker,
                symbol,
                order_id,
                side,
                price,
                size,
                maker_fee,
                taker_fee,
                timestamp,
            } => NoticeView::Fill {
                maker: maker@,
                taker: taker@,
                symbol: symbol@,
                order_id: order_id@,
                side,
                price,
                size,
                maker_fee: maker_fee as int,
                taker_fee: taker_fee as int,
                timestamp,
            },
            Notice::Trade { symbol, price, size, side, timestamp } => NoticeView::Trade {
                symbol: symbol@,
                price,
                size,
                side,
                timestamp,
            },
            Notice::Position {
                address,
                symbol,
                size,
                entry_price,
                mark_price,
                unrealized_pnl,
                timestamp,
            } => NoticeView::Position {
                address: address@,
                symbol: symbol@,
                size,
                entry_price,
                mark_price,
                unrealized_pnl,
                timestamp,
            },
            Notice::Balance { address, balance, available, locked, timestamp } => {
                NoticeView::Balance { address: address@, balance, available, locked, timestamp }
            },
            Notice::Order { trader, order_id, symbol, status, filled, remaining, timestamp } => {
                NoticeView::Order {
                    trader: trader@,
                    order_id: order_id@,
                    symbol: symbol@,
                    status: status@,
                    filled,
                    remaining,
                    timestamp,
                }
            },
            Notice::Adl {
                address,
                symbol,
                size_reduced,
                close_price,
                realized_pnl,
                triggering_liquidation,
                timestamp,
            } => NoticeView::Adl {
                address: address@,
                symbol: symbol@,
                size_reduced,
                close_price,
                realized_pnl,
                triggering_liquidation: triggering_liquidation@,
                timestamp,
            },
            Notice::Funding {
                address,
                symbol,
                payment,
                position_size,
                funding_rate_bps,
                timestamp,
            } => NoticeView::Funding {
                address: address@,
                symbol: symbol@,
                payment,
                position_size,
                funding_rate_bps,
                timestamp,
            },
            Notice::Liquidated { address, symbol, size, price, pnl, was_long, timestamp } => {
                NoticeView::Liquidated {
                    address: address@,
                    symbol: symbol@,
                    size,
                    price,
                    pnl,
                    was_long,
                    timestamp,
                }
            },
        }
    }
}

/// The contents of a list of notices.
pub open spec fn notice_views(list: Seq<Notice>) -> Seq<NoticeView> {
    list.map_values(|n: Notice| n@)
}

/// The quotient, rounded towards zero.
pub open spec fn toward_zero(a: int, b: int) -> int {
    if a >= 0 {
        a / b
    } else {
        -((-a) / b)
    }
}

/// The fee of a trade at a rate in hundredths of a percent: prices times sizes
/// count hundred-millionths.
pub open spec fn fee_of(price: int, size: int, rate: int) -> int {
    toward_zero(toward_zero(price * size, 100_000_000) * rate, 10_000)
}

/// The quotient, rounded towards zero.
fn divide(a: i64, b: u64) -> (r: i64)
    requires
        1 < b,
    ensures
        r == toward_zero(a as int, b as int),
        a >= 0 ==> 0 <= r <= a,
        a <= 0 ==> a <= r <= 0,
        -(0x8000_0000_0000_0000int / b as int) <= r <= 0x8000_0000_0000_0000int / b as int,
{
    if a >= 0 {
        proof {
            assert(0 <= a as int / b as int <= a) by (nonlinear_arith)
                requires
                    a >= 0,
                    b > 1,
            ;
            assert(a as int / b as int <= 0x8000_0000_0000_0000int / b as int) by (nonlinear_arith)
                requires
                    0 <= a <= 0x8000_0000_0000_0000,
                    b > 1,
            ;
        }
        (a as u64 / b) as i64
    } else {
        let magnitude: u64 = if a == i64::MIN {
            0x8000_0000_0000_0000
        } else {
            (-a) as u64
        };
        proof {
            assert(0 <= magnitude as int / b as int <= magnitude as int / 2) by (nonlinear_arith)
                requires
                    b > 1,
            ;
            assert(magnitude as int / b as int <= 0x8000_0000_0000_0000int / b as int)
                by (nonlinear_arith)
                requires
                    0 <= magnitude <= 0x8000_0000_0000_0000,
                    b > 1,
            ;
        }
        let quotient: u64 = magnitude / b;
        -(quotient as i64)
    }
}

/// The product of a trade's price and size can be computed.
pub open spec fn fill_fits(f: Fill) -> bool {
    i64::MIN <= f.price * f.size <= i64::MAX
}

/// What the maker pays: two hundredths of a percent.
pub fn maker_fee(fill: &Fill) -> (r: i64)
    requires
        fill_fits(*fill),
    ensures
        r == fee_of(fill.price as int, fill.size as int, 2),
{
    divide(divide(fill.price * fill.size, 100_000_000) * 2, 10_000)
}

/// What the taker pays: five hundredths of a percent.
pub fn taker_fee(fill: &Fill) -> (r: i64)
    requires
        fill_fits(*fill),
    ensures
        r == fee_of(fill.price as int, fill.size as int, 5),
{
    divide(divide(fill.price * fill.size, 100_000_000) * 5, 10_000)
}

/// The mark price, or zero where there is none.
pub open spec fn mark_or_zero(mark: Option<i64>) -> i64 {
    match mark {
        Some(p) => p,
        None => 0,
    }
}

/// The balance of an account, all of which counts as available.
pub open spec fn balance_note(address: Seq<char>, account: Option<AccountInfo>, timestamp: u64) -> Seq<
    NoticeView,
> {
    match account {
        Some(a) => seq![
            NoticeView::Balance {
                address,
                balance: a.balance,
                available: a.balance,
                locked: a.locked,
                timestamp,
            },
        ],
        None => Seq::empty(),
    }
}

/// The position of an account in a market.
pub open spec fn position_note(
    address: Seq<char>,
    symbol: Seq<char>,
    account: Option<AccountInfo>,
    mark: Option<i64>,
    timestamp: u64,
) -> Seq<NoticeView> {
    match account {
        Some(a) => seq![
            NoticeView::Position {
                address,
                symbol,
                size: a.size,
                entry_price: a.entry_price,
                mark_price: mark_or_zero(mark),
                unrealized_pnl: a.unrealized_pnl,
                timestamp,
            },
        ],
        None => Seq::empty(),
    }
}

/// The notices of a trade: the fill, the public trade, then position and
/// balance of the maker and of the taker.
pub open spec fn fill_notes(f: Fill, timestamp: u64) -> Seq<NoticeView> {
    seq![
        NoticeView::Fill {
            maker: f.maker@,
            taker: f.taker@,
            symbol: f.symbol@,
            order_id: f.maker_order_id@,
            side: f.side,
            price: f.price,
            size: f.size,
            maker_fee: fee_of(f.price as int, f.size as int, 2),
            taker_fee: fee_of(f.price as int, f.size as int, 5),
            timestamp,
        },
        NoticeView::Trade {
            symbol: f.symbol@,
            price: f.price,
            size: f.size,
            side: f.side,
            timestamp,
        },
    ] + position_note(f.maker@, f.symbol@, f.maker_account, f.mark_price, timestamp) + balance_note(
        f.maker@,
        f.maker_account,
        timestamp,
    ) + position_note(f.taker@, f.symbol@, f.taker_account, f.mark_price, timestamp) + balance_note(
        f.taker@,
        f.taker_account,
        timestamp,
    )
}

/// The notice of an order's change.
pub open spec fn order_notes(o: OrderUpdate, timestamp: u64) -> Seq<NoticeView> {
    seq![
        NoticeView::Order {
            trader: o.trader@,
            order_id: o.order_id@,
            symbol: o.symbol@,
            status: o.status@,
            filled: o.filled,
            remaining: o.remaining,
            timestamp,
        },
    ]
}

/// The notices of a forced reduction.
pub open spec fn adl_notes(e: AdlEvent, timestamp: u64) -> Seq<NoticeView> {
    seq![
        NoticeView::Adl {
            address: e.address@,
            symbol: e.symbol@,
            size_reduced: e.size_reduced,
            close_price: e.close_price,
            realized_pnl: e.realized_pnl,
            triggering_liquidation: e.triggering_liquidation@,
            timestamp: e.timestamp,
        },
    ] + position_note(e.address@, e.symbol@, e.account, e.mark_price, timestamp)
}

/// The notices of a funding payment.
pub open spec fn funding_notes(p: FundingPayment, timestamp: u64) -> Seq<NoticeView> {
    seq![
        NoticeView::Funding {
            address: p.address@,
            symbol: p.symbol@,
            payment: p.payment,
            position_size: p.position_size,
            funding_rate_bps: p.funding_rate_bps,
            timestamp: p.timestamp,
        },
    ] + balance_note(p.address@, p.account, timestamp)
}

/// The notices of a liquidation.
pub open spec fn liquidation_notes(l: Liquidation, timestamp: u64) -> Seq<NoticeView> {
    seq![
        NoticeView::Liquidated {
            address: l.address@,
            symbol: l.symbol@,
            size: l.size,
            price: l.price,
            pnl: l.pnl,
            was_long: l.was_long,
            timestamp,
        },
    ] + position_note(l.address@, l.symbol@, l.account, l.mark_price, timestamp) + balance_note(
        l.address@,
        l.account,
        timestamp,
    )
}

/// The notices of the first trades.
pub open spec fn fills_notes(list: Seq<Fill>, n: nat, timestamp: u64) -> Seq<NoticeView>
    decreases n,
{
    if n == 0 {
        Seq::empty()
    } else {
        fills_notes(list, (n - 1) as nat, timestamp) + fill_notes(list[n - 1], timestamp)
    }
}

/// The notices of the first changes of orders.
pub open spec fn orders_notes(list: Seq<OrderUpdate>, n: nat, timestamp: u64) -> Seq<NoticeView>
    decreases n,
{
    if n == 0 {
        Seq::empty()
    } else {
        orders_notes(list, (n - 1) as nat, timestamp) + order_notes(list[n - 1], timestamp)
    }
}

/// The notices of the first deposits.
pub open spec fn deposits_notes(list: Seq<Deposit>, n: nat, timestamp: u64) -> Seq<NoticeView>
    decreases n,
{
    if n == 0 {
        Seq::empty()
    } else {
        deposits_notes(list, (n - 1) as nat, timestamp) + balance_note(
            list[n - 1].trader@,
            list[n - 1].account,
            timestamp,
        )
    }
}

/// The notices of the first forced reductions.
pub open spec fn adls_notes(list: Seq<AdlEvent>, n: nat, timestamp: u64) -> Seq<NoticeView>
    decreases n,
{
    if n == 0 {
        Seq::empty()
    } else {
        adls_notes(list, (n - 1) as nat, timestamp) + adl_notes(list[n - 1], timestamp)
    }
}

/// The notices of the first funding payments.
pub open spec fn fundings_notes(list: Seq<FundingPayment>, n: nat, timestamp: u64) -> Seq<NoticeView>
    decreases n,
{
    if n == 0 {
        Seq::empty()
    } else {
        fundings_notes(list, (n - 1) as nat, timestamp) + funding_notes(list[n - 1], timestamp)
    }
}

/// The notices of the first liquidations.
pub open spec fn liquidations_notes(list: Seq<Liquidation>, n: nat, timestamp: u64) -> Seq<NoticeView>
    decreases n,
{
    if n == 0 {
        Seq::empty()
    } else {
        liquidations_notes(list, (n - 1) as nat, timestamp) + liquidation_notes(
            list[n - 1],
            timestamp,
        )
    }
}

/// The notices of a block: trades, orders, deposits, forced reductions,
/// funding and liquidations, in this order.
pub open spec fn block_notes(e: BlockEvents, timestamp: u64) -> Seq<NoticeView> {
    fills_notes(e.fills@, e.fills@.len(), timestamp) + orders_notes(
        e.order_updates@,
        e.order_updates@.len(),
        timestamp,
    ) + deposits_notes(e.deposits@, e.deposits@.len(), timestamp) + adls_notes(
        e.adl@,
        e.adl@.len(),
        timestamp,
    ) + fundings_notes(e.funding@, e.funding@.len(), timestamp) + liquidations_notes(
        e.liquidations@,
        e.liquidations@.len(),
        timestamp,
    )
}

/// The mark price, or zero where there is none.
pub fn mark_price_or_zero(mark: Option<i64>) -> (r: i64)
    ensures
        r == mark_or_zero(mark),
{
    match mark {
        Some(p) => p,
        None => 0,
    }
}

/// Adds one notice.
fn tell(out: &mut Vec<Notice>, notice: Notice)
    ensures
        notice_views(final(out)@) == notice_views(old(out)@).push(notice@),
{
    out.push(notice);
    assert(notice_views(out@) =~= notice_views(old(out)@).push(notice@));
}

/// Adds the balance of an account.
fn tell_balance(out: &mut Vec<Notice>, address: &String, account: &Option<AccountInfo>, timestamp: u64)
    ensures
        notice_views(final(out)@) == notice_views(old(out)@) + balance_note(
            address@,
            *account,
            timestamp,
        ),
{
    let ghost before = notice_views(out@);
    if let Some(a) = account {
        tell(
            out,
            Notice::Balance {
                address: address.clone(),
                balance: a.balance,
                available: a.balance,
                locked: a.locked,
                timestamp,
            },
        );
    }
    assert(notice_views(out@) =~= before + balance_note(address@, *account, timestamp));
}

/// Adds the position of an account in a market.
fn tell_position(
    out: &mut Vec<Notice>,
    address: &String,
    symbol: &String,
    account: &Option<AccountInfo>,
    mark: Option<i64>,
    timestamp: u64,
)
    ensures
        notice_views(final(out)@) == notice_views(old(out)@) + position_note(
            address@,
            symbol@,
            *account,
            mark,
            timestamp,
        ),
{
    let ghost before = notice_views(out@);
    if let Some(a) = account {
        tell(
            out,
            Notice::Position {
                address: address.clone(),
                symbol: symbol.clone(),
                size: a.size,
                entry_price: a.entry_price,
                mark_price: mark_price_or_zero(mark),
                unrealized_pnl: a.unrealized_pnl,
                timestamp,
            },
        );
    }
    assert(notice_views(out@) =~= before + position_note(
        address@,
        symbol@,
        *account,
        mark,
        timestamp,
    ));
}

/// Adds the notices of a trade.
fn tell_fill(out: &mut Vec<Notice>, fill: &Fill, timestamp: u64)
    requires
        fill_fits(*fill),
    ensures
        notice_views(final(out)@) == notice_views(old(out)@) + fill_notes(*fill, timestamp),
{
    let ghost before = notice_views(out@);
    tell(
        out,
        Notice::Fill {
            maker: fill.maker.clone(),
            taker: fill.taker.clone(),
            symbol: fill.symbol.clone(),
            order_id: fill.maker_order_id.clone(),
            side: fill.side,
            price: fill.price,
            size: fill.size,
            maker_fee: maker_fee(fill),
            taker_fee: taker_fee(fill),
            timestamp,
        },
    );
    tell(
        out,
        Notice::Trade {
            symbol: fill.symbol.clone(),
            price: fill.price,
            size: fill.size,
            side: fill.side,
            timestamp,
        },
    );
    tell_position(out, &fill.maker, &fill.symbol, &fill.maker_account, fill.mark_price, timestamp);
    tell_balance(out, &fill.maker, &fill.maker_account, timestamp);
    tell_position(out, &fill.taker, &fill.symbol, &fill.taker_account, fill.mark_price, timestamp);
    tell_balance(out, &fill.taker, &fill.taker_account, timestamp);
    assert(notice_views(out@) =~= before + fill_notes(*fill, timestamp));
}

/// Adds the notices of all trades.
fn tell_fills(out: &mut Vec<Notice>, list: &Vec<Fill>, timestamp: u64)
    requires
        forall|i: int| 0 <= i < list@.len() ==> fill_fits(#[trigger] list@[i]),
    ensures
        notice_views(final(out)@) == notice_views(old(out)@) + fills_notes(
            list@,
            list@.len(),
            timestamp,
        ),
{
    let ghost before = notice_views(out@);
    let mut i: usize = 0;
    assert(before =~= before + fills_notes(list@, 0, timestamp));
    while i < list.len()
        invariant
            i <= list.len(),
            forall|k: int| 0 <= k < list@.len() ==> fill_fits(#[trigger] list@[k]),
            notice_views(out@) == before + fills_notes(list@, i as nat, timestamp),
        decreases list.len() - i,
    {
        assert(fill_fits(list@[i as int]));
        tell_fill(out, &list[i], timestamp);
        i = i + 1;
        assert(notice_views(out@) =~= before + fills_notes(list@, i as nat, timestamp));
    }
}

/// Adds the notices of all changes of orders.
fn tell_orders(out: &mut Vec<Notice>, list: &Vec<OrderUpdate>, timestamp: u64)
    ensures
        notice_views(final(out)@) == notice_views(old(out)@) + orders_notes(
            list@,
            list@.len(),
            timestamp,
        ),
{
    let ghost before = notice_views(out@);
    let mut i: usize = 0;
    assert(before =~= before + orders_notes(list@, 0, timestamp));
    while i < list.len()
        invariant
            i <= list.len(),
            notice_views(out@) == before + orders_notes(list@, i as nat, timestamp),
        decreases list.len() - i,
    {
        let o = &list[i];
        tell(
            out,
            Notice::Order {
                trader: o.trader.clone(),
                order_id: o.order_id.clone(),
                symbol: o.symbol.clone(),
                status: o.status.clone(),
                filled: o.filled,
                remaining: o.remaining,
                timestamp,
            },
        );
        i = i + 1;
        assert(notice_views(out@) =~= before + orders_notes(list@, i as nat, timestamp));
    }
}

/// Adds the notices of all deposits.
fn tell_deposits(out: &mut Vec<Notice>, list: &Vec<Deposit>, timestamp: u64)
    ensures
        notice_views(final(out)@) == notice_views(old(out)@) + deposits_notes(
            list@,
            list@.len(),
            timestamp,
        ),
{
    let ghost before = notice_views(out@);
    let mut i: usize = 0;
    assert(before =~= before + deposits_notes(list@, 0, timestamp));
    while i < list.len()
        invariant
            i <= list.len(),
            notice_views(out@) == before + deposits_notes(list@, i as nat, timestamp),
        decreases list.len() - i,
    {
        tell_balance(out, &list[i].trader, &list[i].account, timestamp);
        i = i + 1;
        assert(notice_views(out@) =~= before + deposits_notes(list@, i as nat, timestamp));
    }
}

/// Adds the notices of all forced reductions.
fn tell_adls(out: &mut Vec<Notice>, list: &Vec<AdlEvent>, timestamp: u64)
    ensures
        notice_views(final(out)@) == notice_views(old(out)@) + adls_notes(
            list@,
            list@.len(),
            timestamp,
        ),
{
    let ghost before = notice_views(out@);
    let mut i: usize = 0;
    assert(before =~= before + adls_notes(list@, 0, timestamp));
    while i < list.len()
        invariant
            i <= list.len(),
            notice_views(out@) == before + adls_notes(list@, i as nat, timestamp),
        decreases list.len() - i,
    {
        let e = &list[i];
        tell(
            out,
            Notice::Adl {
                address: e.address.clone(),
                symbol: e.symbol.clone(),
                size_reduced: e.size_reduced,
                close_price: e.close_price,
                realized_pnl: e.realized_pnl,
                triggering_liquidation: e.triggering_liquidation.clone(),
                timestamp: e.timestamp,
            },
        );
        tell_position(out, &e.address, &e.symbol, &e.account, e.mark_price, timestamp);
        i = i + 1;
        assert(notice_views(out@) =~= before + adls_notes(list@, i as nat, timestamp));
    }
}

/// Adds the notices of all funding payments.
fn tell_fundings(out: &mut Vec<Notice>, list: &Vec<FundingPayment>, timestamp: u64)
    ensures
        notice_views(final(out)@) == notice_views(old(out)@) + fundings_notes(
            list@,
            list@.len(),
            timestamp,
        ),
{
    let ghost before = notice_views(out@);
    let mut i: usize = 0;
    assert(before =~= before + fundings_notes(list@, 0, timestamp));
    while i < list.len()
        invariant
            i <= list.len(),
            notice_views(out@) == before + fundings_notes(list@, i as nat, timestamp),
        decreases list.len() - i,
    {
        let p = &list[i];
        tell(
            out,
            Notice::Funding {
                address: p.address.clone(),
                symbol: p.symbol.clone(),
                payment: p.payment,
                position_size: p.position_size,
                funding_rate_bps: p.funding_rate_bps,
                timestamp: p.timestamp,
            },
        );
        tell_balance(out, &p.address, &p.account, timestamp);
        i = i + 1;
        assert(notice_views(out@) =~= before + fundings_notes(list@, i as nat, timestamp));
    }
}

/// Adds the notices of all liquidations.
fn tell_liquidations(out: &mut Vec<Notice>, list: &Vec<Liquidation>, timestamp: u64)
    ensures
        notice_views(final(out)@) == notice_views(old(out)@) + liquidations_notes(
            list@,
            list@.len(),
            timestamp,
        ),
{
    let ghost before = notice_views(out@);
    let mut i: usize = 0;
    assert(before =~= before + liquidations_notes(list@, 0, timestamp));
    while i < list.len()
        invariant
            i <= list.len(),
            notice_views(out@) == before + liquidations_notes(list@, i as nat, timestamp),
        decreases list.len() - i,
    {
        let l = &list[i];
        tell(
            out,
            Notice::Liquidated {
                address: l.address.clone(),
                symbol: l.symbol.clone(),
                size: l.size,
                price: l.price,
                pnl: l.pnl,
                was_long: l.was_long,
                timestamp,
            },
        );
        tell_position(out, &l.address, &l.symbol, &l.account, l.mark_price, timestamp);
        tell_balance(out, &l.address, &l.account, timestamp);
        i = i + 1;
        assert(notice_views(out@) =~= before + liquidations_notes(list@, i as nat, timestamp));
    }
}

/// The notices of a block, in the order in which they are sent.
pub fn block_notices(events: &BlockEvents, timestamp: u64) -> (r: Vec<Notice>)
    requires
        forall|i: int| 0 <= i < events.fills@.len() ==> fill_fits(#[trigger] events.fills@[i]),
    ensures
        notice_views(r@) == block_notes(*events, timestamp),
{
    let mut out: Vec<Notice> = Vec::new();
    assert(notice_views(out@) =~= Seq::empty());
    tell_fills(&mut out, &events.fills, timestamp);
    tell_orders(&mut out, &events.order_updates, timestamp);
    tell_deposits(&mut out, &events.deposits, timestamp);
    tell_adls(&mut out, &events.adl, timestamp);
    tell_fundings(&mut out, &events.funding, timestamp);
    tell_liquidations(&mut out, &events.liquidations, timestamp);
    assert(notice_views(out@) =~= block_notes(*events, timestamp));
    out
}

/// A fee is the rate of the notional value, in hundredths of a percent, and the notional
/// value the product of price and size in hundred-millionths, both cut off towards zero.
pub proof fn lemma_fee(price: int, size: int, rate: int)
    requires
        price * size >= 0,
        rate >= 0,
    ensures
        exists|notional: int|
            {
                &&& 0 <= #[trigger] (notional * 100_000_000) <= price * size
                &&& price * size < notional * 100_000_000 + 100_000_000
                &&& fee_of(price, size, rate) * 10_000 <= notional * rate
                &&& notional * rate < fee_of(price, size, rate) * 10_000 + 10_000
            },
        fee_of(price, size, rate) >= 0,
        rate == 0 ==> fee_of(price, size, rate) == 0,
{
    let total = price * size;
    let notional = total / 100_000_000;
    assert(0 <= notional * 100_000_000 <= total < notional * 100_000_000 + 100_000_000);
    let due = notional * rate;
    assert(due >= 0) by (nonlinear_arith)
        requires
            notional >= 0,
            rate >= 0,
            due == notional * rate,
    ;
    assert(fee_of(price, size, rate) == due / 10_000);
    assert(rate == 0 ==> due == 0) by (nonlinear_arith)
        requires
            due == notional * rate,
    ;
}

/// The sign of the product carries over to the fee, and turning it round changes nothing
/// else.
pub proof fn lemma_fee_sign(price: int, size: int, rate: int)
    ensures
        fee_of(-price, size, rate) == -fee_of(price, size, rate),
{
    assert((-price) * size == -(price * size)) by (nonlinear_arith);
    let a = price * size;
    let x = toward_zero(a, 100_000_000);
    assert(toward_zero(-a, 100_000_000) == -x);
    assert((-x) * rate == -(x * rate)) by (nonlinear_arith);
    let y = x * rate;
    assert(toward_zero(-y, 10_000) == -toward_zero(y, 10_000));
}

/// What a fill brings: the fill with a fee of two hundredths of a percent for the maker
/// and five for the taker, the trade, and then position and balance of the maker and of
/// the taker, as far as their accounts are known.
pub proof fn lemma_fill_notes(f: Fill, timestamp: u64)
    ensures
        ({
            let notes = fill_notes(f, timestamp);
            &&& notes.len() == 2 + (if f.maker_account is Some {
                2int
            } else {
                0int
            }) + (if f.taker_account is Some {
                2int
            } else {
                0int
            })
            &&& notes[0] matches NoticeView::Fill {
                maker,
                taker,
                symbol,
                order_id,
                side,
                price,
                size,
                maker_fee,
                taker_fee,
                timestamp: t,
            } && order_id == f.maker_order_id@ && maker == f.maker@ && taker == f.taker@ && symbol == f.symbol@ && side == f.side
                && price == f.price && size == f.size && maker_fee == fee_of(
                f.price as int,
                f.size as int,
                2,
            ) && taker_fee == fee_of(f.price as int, f.size as int, 5) && t == timestamp
            &&& notes[1] matches NoticeView::Trade { symbol, price, size, side, timestamp: t }
                && symbol == f.symbol@ && price == f.price && size == f.size && side == f.side && t
                == timestamp
            &&& f.maker_account is Some ==> notes.subrange(2, 4) == position_note(
                f.maker@,
                f.symbol@,
                f.maker_account,
                f.mark_price,
                timestamp,
            ) + balance_note(f.maker@, f.maker_account, timestamp)
            &&& f.taker_account is Some ==> notes.subrange(notes.len() - 2, notes.len() as int)
                == position_note(
                f.taker@,
                f.symbol@,
                f.taker_account,
                f.mark_price,
                timestamp,
            ) + balance_note(f.taker@, f.taker_account, timestamp)
        }),
{
    let notes = fill_notes(f, timestamp);
    if f.maker_account is Some {
        assert(notes.subrange(2, 4) =~= position_note(
            f.maker@,
            f.symbol@,
            f.maker_account,
            f.mark_price,
            timestamp,
        ) + balance_note(f.maker@, f.maker_account, timestamp));
    }
    if f.taker_account is Some {
        assert(notes.subrange(notes.len() - 2, notes.len() as int) =~= position_note(
            f.taker@,
            f.symbol@,
            f.taker_account,
            f.mark_price,
            timestamp,
        ) + balance_note(f.taker@, f.taker_account, timestamp));
    }
}

/// What is told of an account: its balance, which is also what is available, and what is
/// locked; its position with the mark price, or zero without one. Of an unknown account
/// nothing is told.
pub proof fn lemma_account_notes(
    address: Seq<char>,
    symbol: Seq<char>,
    a: AccountInfo,
    mark: Option<i64>,
    timestamp: u64,
)
    ensures
        balance_note(address, None, timestamp).len() == 0,
        position_note(address, symbol, None, mark, timestamp).len() == 0,
        balance_note(address, Some(a), timestamp).len() == 1,
        position_note(address, symbol, Some(a), mark, timestamp).len() == 1,
        balance_note(address, Some(a), timestamp)[0] == (NoticeView::Balance {
            address,
            balance: a.balance,
            available: a.balance,
            locked: a.locked,
            timestamp,
        }),
        position_note(address, symbol, Some(a), mark, timestamp)[0] matches NoticeView::Position {
            address: w,
            symbol: s,
            size,
            entry_price,
            mark_price,
            unrealized_pnl,
            timestamp: t,
        } && w == address && s == symbol && size == a.size && entry_price == a.entry_price
            && unrealized_pnl == a.unrealized_pnl && t == timestamp && (mark matches Some(p)
            ==> mark_price == p) && (mark is None ==> mark_price == 0),
{
}

/// The notices of a block come in the order of fills, order updates, deposits, forced
/// reductions, funding and liquidations, and each kind in the order of execution.
pub proof fn lemma_notes_in_order(e: BlockEvents, timestamp: u64)
    ensures
        ({
            let notes = block_notes(e, timestamp);
            let fills = fills_notes(e.fills@, e.fills@.len(), timestamp);
            let orders = orders_notes(e.order_updates@, e.order_updates@.len(), timestamp);
            let last = liquidations_notes(e.liquidations@, e.liquidations@.len(), timestamp);
            let funding = fundings_notes(e.funding@, e.funding@.len(), timestamp);
            let adl = adls_notes(e.adl@, e.adl@.len(), timestamp);
            let deposits = deposits_notes(e.deposits@, e.deposits@.len(), timestamp);
            let n = notes.len() as int;
            &&& n == fills.len() + orders.len() + deposits.len() + adl.len() + funding.len()
                + last.len()
            &&& notes.subrange(0, fills.len() as int) == fills
            &&& notes.subrange(fills.len() as int, (fills.len() + orders.len()) as int) == orders
            &&& notes.subrange(n - last.len(), n) == last
            &&& notes.subrange(n - last.len() - funding.len(), n - last.len()) == funding
            &&& notes.subrange(
                n - last.len() - funding.len() - adl.len(),
                n - last.len() - funding.len(),
            ) == adl
        }),
{
    let notes = block_notes(e, timestamp);
    let fills = fills_notes(e.fills@, e.fills@.len(), timestamp);
    let orders = orders_notes(e.order_updates@, e.order_updates@.len(), timestamp);
    let last = liquidations_notes(e.liquidations@, e.liquidations@.len(), timestamp);
    let funding = fundings_notes(e.funding@, e.funding@.len(), timestamp);
    let adl = adls_notes(e.adl@, e.adl@.len(), timestamp);
    let n = notes.len() as int;
    assert(notes.subrange(0, fills.len() as int) =~= fills);
    assert(notes.subrange(fills.len() as int, (fills.len() + orders.len()) as int) =~= orders);
    assert(notes.subrange(n - last.len(), n) =~= last);
    assert(notes.subrange(n - last.len() - funding.len(), n - last.len()) =~= funding);
    assert(notes.subrange(
        n - last.len() - funding.len() - adl.len(),
        n - last.len() - funding.len(),
    ) =~= adl);
}

/// What is told of the other events, first of the event itself and then of the account: an
/// order update as it is; a forced reduction with the position; a funding payment with the
/// balance; a liquidation with both. Forced reductions and funding carry their own time.
pub proof fn lemma_event_notes(
    o: OrderUpdate,
    e: AdlEvent,
    p: FundingPayment,
    l: Liquidation,
    timestamp: u64,
)
    ensures
        order_notes(o, timestamp).len() == 1,
        order_notes(o, timestamp)[0] == (NoticeView::Order {
            trader: o.trader@,
            order_id: o.order_id@,
            symbol: o.symbol@,
            status: o.status@,
            filled: o.filled,
            remaining: o.remaining,
            timestamp,
        }),
        adl_notes(e, timestamp)[0] == (NoticeView::Adl {
            address: e.address@,
            symbol: e.symbol@,
            size_reduced: e.size_reduced,
            close_price: e.close_price,
            realized_pnl: e.realized_pnl,
            triggering_liquidation: e.triggering_liquidation@,
            timestamp: e.timestamp,
        }),
        adl_notes(e, timestamp).skip(1) == position_note(
            e.address@,
            e.symbol@,
            e.account,
            e.mark_price,
            timestamp,
        ),
        funding_notes(p, timestamp)[0] == (NoticeView::Funding {
            address: p.address@,
            symbol: p.symbol@,
            payment: p.payment,
            position_size: p.position_size,
            funding_rate_bps: p.funding_rate_bps,
            timestamp: p.timestamp,
        }),
        funding_notes(p, timestamp).skip(1) == balance_note(p.address@, p.account, timestamp),
        liquidation_notes(l, timestamp)[0] == (NoticeView::Liquidated {
            address: l.address@,
            symbol: l.symbol@,
            size: l.size,
            price: l.price,
            pnl: l.pnl,
            was_long: l.was_long,
            timestamp,
        }),
        liquidation_notes(l, timestamp).skip(1) == position_note(
            l.address@,
            l.symbol@,
            l.account,
            l.mark_price,
            timestamp,
        ) + balance_note(l.address@, l.account, timestamp),
{
    assert(adl_notes(e, timestamp).skip(1) =~= position_note(
        e.address@,
        e.symbol@,
        e.account,
        e.mark_price,
        timestamp,
    ));
    assert(funding_notes(p, timestamp).skip(1) =~= balance_note(p.address@, p.account, timestamp));
    assert(liquidation_notes(l, timestamp).skip(1) =~= position_note(
        l.address@,
        l.symbol@,
        l.account,
        l.mark_price,
        timestamp,
    ) + balance_note(l.address@, l.account, timestamp));
}

/// One more event of a kind adds its notices behind those of the events before it.
pub proof fn lemma_notes_grow(e: BlockEvents, n: nat, timestamp: u64)
    ensures
        fills_notes(e.fills@, n + 1, timestamp) == fills_notes(e.fills@, n, timestamp) + fill_notes(
            e.fills@[n as int],
            timestamp,
        ),
        orders_notes(e.order_updates@, n + 1, timestamp) == orders_notes(
            e.order_updates@,
            n,
            timestamp,
        ) + order_notes(e.order_updates@[n as int], timestamp),
        deposits_notes(e.deposits@, n + 1, timestamp) == deposits_notes(e.deposits@, n, timestamp)
            + balance_note(e.deposits@[n as int].trader@, e.deposits@[n as int].account, timestamp),
        adls_notes(e.adl@, n + 1, timestamp) == adls_notes(e.adl@, n, timestamp) + adl_notes(
            e.adl@[n as int],
            timestamp,
        ),
        fundings_notes(e.funding@, n + 1, timestamp) == fundings_notes(e.funding@, n, timestamp)
            + funding_notes(e.funding@[n as int], timestamp),
        liquidations_notes(e.liquidations@, n + 1, timestamp) == liquidations_notes(
            e.liquidations@,
            n,
            timestamp,
        ) + liquidation_notes(e.liquidations@[n as int], timestamp),
        fills_notes(e.fills@, 0, timestamp).len() == 0,
        orders_notes(e.order_updates@, 0, timestamp).len() == 0,
        deposits_notes(e.deposits@, 0, timestamp).len() == 0,
        adls_notes(e.adl@, 0, timestamp).len() == 0,
        fundings_notes(e.funding@, 0, timestamp).len() == 0,
        liquidations_notes(e.liquidations@, 0, timestamp).len() == 0,
{
}

} // verus!
