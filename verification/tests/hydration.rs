use swexa::account_data::read_pubkey;
use swexa::hydration::{
    meteora_bin_array_index, parse_meteora_active_id, parse_meteora_bin_array,
    parse_token_vault_amount, parse_whirlpool_account, parse_whirlpool_tick_array,
    whirlpool_tick_array_start_tick, METEORA_BIN_ARRAY_DISCRIMINATOR,
    METEORA_BIN_ARRAY_HEADER_SIZE, METEORA_BIN_SIZE, WHIRLPOOL_TICK_ARRAY_HEADER_SIZE,
    WHIRLPOOL_TICK_SIZE,
};
use swexa::pool::PubkeyBytes;

fn write_bytes(data: &mut [u8], offset: usize, bytes: &[u8]) {
    data[offset..offset + bytes.len()].copy_from_slice(bytes);
}

#[test]
fn read_pubkey_at_offset() {
    let mut data = vec![0u8; 100];
    let expected = [7u8; 32];
    data[50..82].copy_from_slice(&expected);

    let result = read_pubkey(&data, 50).unwrap();
    assert_eq!(result.0, expected);
}

#[test]
fn read_pubkey_out_of_bounds() {
    let data = vec![0u8; 30];
    assert!(read_pubkey(&data, 0).is_err());
}

#[test]
fn parses_token_vault_amount() {
    let mint = PubkeyBytes([7u8; 32]);
    let mut data = vec![0u8; 165];
    write_bytes(&mut data, 0, &mint.0);
    write_bytes(&mut data, 64, &123_456u64.to_le_bytes());

    let parsed = parse_token_vault_amount(&data).unwrap();

    assert_eq!(parsed.mint, mint);
    assert_eq!(parsed.amount, 123_456);
}

#[test]
fn parses_whirlpool_account_core_fields() {
    let mint_a = PubkeyBytes([1u8; 32]);
    let vault_a = PubkeyBytes([2u8; 32]);
    let mint_b = PubkeyBytes([3u8; 32]);
    let vault_b = PubkeyBytes([4u8; 32]);
    let mut data = vec![0u8; 245];
    write_bytes(&mut data, 41, &4u16.to_le_bytes());
    write_bytes(&mut data, 45, &400u16.to_le_bytes());
    write_bytes(&mut data, 49, &987_654_321u128.to_le_bytes());
    write_bytes(&mut data, 65, &(1u128 << 64).to_le_bytes());
    write_bytes(&mut data, 81, &(-123i32).to_le_bytes());
    write_bytes(&mut data, 101, &mint_a.0);
    write_bytes(&mut data, 133, &vault_a.0);
    write_bytes(&mut data, 181, &mint_b.0);
    write_bytes(&mut data, 213, &vault_b.0);

    let parsed = parse_whirlpool_account(&data).unwrap();

    assert_eq!(parsed.tick_spacing, 4);
    assert_eq!(parsed.fee_rate, 400);
    assert_eq!(parsed.liquidity, 987_654_321);
    assert_eq!(parsed.sqrt_price_x64, 1u128 << 64);
    assert_eq!(parsed.current_tick_index, -123);
    assert_eq!(parsed.token_mint_a, mint_a);
    assert_eq!(parsed.token_vault_a, vault_a);
    assert_eq!(parsed.token_mint_b, mint_b);
    assert_eq!(parsed.token_vault_b, vault_b);
}

#[test]
fn parses_initialized_whirlpool_ticks() {
    let mut data = vec![0u8; WHIRLPOOL_TICK_ARRAY_HEADER_SIZE + WHIRLPOOL_TICK_SIZE * 88];
    write_bytes(&mut data, 8, &(-176i32).to_le_bytes());
    let tick_offset = WHIRLPOOL_TICK_ARRAY_HEADER_SIZE + 3 * WHIRLPOOL_TICK_SIZE;
    data[tick_offset] = 1;
    write_bytes(&mut data, tick_offset + 1, &123i128.to_le_bytes());

    let ticks = parse_whirlpool_tick_array(&data, 4).unwrap();

    assert_eq!(ticks.len(), 1);
    assert_eq!(ticks[0].index, -164);
    assert_eq!(ticks[0].liquidity_net, 123);
}

#[test]
fn meteora_bin_array_index_floors_negative_ids() {
    assert_eq!(meteora_bin_array_index(0), 0);
    assert_eq!(meteora_bin_array_index(69), 0);
    assert_eq!(meteora_bin_array_index(70), 1);
    assert_eq!(meteora_bin_array_index(-1), -1);
    assert_eq!(meteora_bin_array_index(-70), -1);
    assert_eq!(meteora_bin_array_index(-71), -2);
}

#[test]
fn parses_meteora_bin_array_liquidity_bins() {
    let lb_pair = PubkeyBytes([9u8; 32]);
    let mut data = vec![0u8; METEORA_BIN_ARRAY_HEADER_SIZE + METEORA_BIN_SIZE * 70];
    write_bytes(&mut data, 0, &METEORA_BIN_ARRAY_DISCRIMINATOR);
    write_bytes(&mut data, 8, &(-2i64).to_le_bytes());
    data[16] = 2;
    write_bytes(&mut data, 24, &lb_pair.0);

    let bin_offset = METEORA_BIN_ARRAY_HEADER_SIZE + 69 * METEORA_BIN_SIZE;
    write_bytes(&mut data, bin_offset, &11u64.to_le_bytes());
    write_bytes(&mut data, bin_offset + 8, &22u64.to_le_bytes());

    let bins = parse_meteora_bin_array(&data, lb_pair).unwrap();

    assert_eq!(bins.len(), 1);
    assert_eq!(bins[0].id, -71);
    assert_eq!(bins[0].amount_x, 11);
    assert_eq!(bins[0].amount_y, 22);
}

#[test]
fn meteora_bin_array_rejects_other_pair() {
    let lb_pair = PubkeyBytes([9u8; 32]);
    let mut data = vec![0u8; METEORA_BIN_ARRAY_HEADER_SIZE + METEORA_BIN_SIZE * 70];
    write_bytes(&mut data, 0, &METEORA_BIN_ARRAY_DISCRIMINATOR);
    write_bytes(&mut data, 24, &[8u8; 32]);
    assert!(parse_meteora_bin_array(&data, lb_pair).is_err());
    data[0] = 0;
    assert!(parse_meteora_bin_array(&data, lb_pair).is_err());
}

#[test]
fn short_accounts_are_rejected() {
    assert!(parse_token_vault_amount(&[0u8; 71]).is_err());
    assert!(parse_whirlpool_account(&[0u8; 244]).is_err());
    assert!(parse_whirlpool_tick_array(&[0u8; 100], 4).is_err());
    assert_eq!(parse_meteora_active_id(&[0u8; 79]), None);
}

#[test]
fn meteora_active_id_is_read_at_offset_76() {
    let mut data = vec![0u8; 80];
    write_bytes(&mut data, 76, &(-5i32).to_le_bytes());
    assert_eq!(parse_meteora_active_id(&data), Some(-5));
}

#[test]
fn tick_array_start_rounds_down_to_array_multiple() {
    assert_eq!(whirlpool_tick_array_start_tick(0, 4), 0);
    assert_eq!(whirlpool_tick_array_start_tick(351, 4), 0);
    assert_eq!(whirlpool_tick_array_start_tick(352, 4), 352);
    assert_eq!(whirlpool_tick_array_start_tick(-1, 4), -352);
    assert_eq!(whirlpool_tick_array_start_tick(-352, 4), -352);
    assert_eq!(whirlpool_tick_array_start_tick(-353, 4), -704);
}
