use scrapestore::config::{AppConfig, ScraperConfig};
use scrapestore::dirty::DirtySet;
use scrapestore::pool::{select_provider, str_contains, tick_queue_capacity, Provider, ProviderError};
use scrapestore::readings::{split_readings, Payload, Reading};
use scrapestore::bids::Bid;
use scrapestore::values::Metric;

#[test]
fn upload_retry_requeues_failures_without_duplicates() {
    let mut ledger = DirtySet::new();
    let key = String::from("data/apg/year=2024/month=01/day=02/data.parquet");
    ledger.mark(key.clone());
    assert!(ledger.contains(&key));

    // Cycle 1: drain, the put for the key fails, the whole batch is re-marked.
    let batch = ledger.drain();
    assert_eq!(batch.len(), 1);
    assert!(!ledger.contains(&key));
    ledger.requeue(batch);
    assert!(ledger.contains(&key), "a failed upload leaves the key dirty");

    // An unrelated merge marks a different key between the cycles.
    let other = String::from("data/apg/year=2024/month=01/day=03/data.parquet");
    ledger.mark(other.clone());
    assert_eq!(ledger.len(), 2, "no duplicate dirty entries");

    // Cycle 2: the put for the key succeeds; only unfinished work stays out.
    let batch = ledger.drain();
    assert_eq!(batch.len(), 2);
    ledger.requeue(Vec::new());
    assert!(!ledger.contains(&key), "a confirmed upload removes the key");
    assert!(!ledger.contains(&other));
}

#[test]
fn marking_is_idempotent() {
    let mut ledger = DirtySet::new();
    let key = String::from("data/x");
    ledger.mark(key.clone());
    ledger.mark(key.clone());
    ledger.mark(key.clone());
    assert_eq!(ledger.len(), 1);
}

#[test]
fn provider_selection_follows_the_url_hint() {
    assert_eq!(
        select_provider(Some("https://web-api.tp.entsoe.eu/api")),
        Ok(Provider::Entsoe),
    );
    assert_eq!(select_provider(Some("https://markt.apg.at/api")), Ok(Provider::Apg));
    assert_eq!(
        select_provider(Some("https://example.com/feed")),
        Err(ProviderError::UnknownUrl),
    );
    assert_eq!(select_provider(None), Err(ProviderError::MissingUrl));
}

#[test]
fn entsoe_wins_when_both_names_occur() {
    assert_eq!(
        select_provider(Some("https://entsoe.example/apg")),
        Ok(Provider::Entsoe),
    );
}

#[test]
fn substring_search_finds_needles() {
    assert!(str_contains("https://web-api.tp.entsoe.eu", "entsoe"));
    assert!(!str_contains("https://example.com", "entsoe"));
    assert!(str_contains("abc", ""));
    assert!(!str_contains("ab", "abc"));
}

#[test]
fn tick_queue_capacity_is_twice_workers_but_at_least_ten() {
    assert_eq!(tick_queue_capacity(1), 10);
    assert_eq!(tick_queue_capacity(4), 10);
    assert_eq!(tick_queue_capacity(5), 10);
    assert_eq!(tick_queue_capacity(6), 12);
    assert_eq!(tick_queue_capacity(20), 40);
}

fn test_config() -> AppConfig {
    AppConfig {
        s3_bucket: Some(String::from("file-bucket")),
        s3_region: None,
        s3_endpoint: Some(String::from("https://file-endpoint")),
        s3_prefix: None,
        scrapers: vec![ScraperConfig {
            name: String::from("apg"),
            workers: 2,
            task_generator_delay_ms: 500,
            url: Some(String::from("https://markt.apg.at")),
            sub_data_folder: None,
        }],
        retention_days: Some(30),
    }
}

#[test]
fn environment_overrides_take_precedence() {
    let config = test_config();
    assert_eq!(
        config.get_s3_bucket(Some(String::from("env-bucket"))),
        Some(String::from("env-bucket")),
    );
    assert_eq!(config.get_s3_bucket(None), Some(String::from("file-bucket")));
    assert_eq!(config.get_s3_region(None), None);
    assert_eq!(config.get_s3_endpoint(None), Some(String::from("https://file-endpoint")));
}

#[test]
fn key_prefix_defaults_to_the_storage_root() {
    let config = test_config();
    assert_eq!(config.get_s3_prefix(None), "data/");
    assert_eq!(config.get_s3_prefix(Some(String::from("mirror/"))), "mirror/");
}

#[test]
fn split_separates_values_from_flattened_bids() {
    let data = vec![
        Reading {
            delivery_from: 1000,
            delivery_to: 2000,
            payload: Payload::Values(vec![Metric { name: String::from("a"), bits: 1.0f64.to_bits() }]),
        },
        Reading {
            delivery_from: 3000,
            delivery_to: 4000,
            payload: Payload::Bids(vec![
                Bid { product: String::from("X"), rank: 1, price: Some(1.0f64.to_bits()), volume: None },
                Bid { product: String::from("X"), rank: 2, price: None, volume: None },
            ]),
        },
    ];
    let (values, bids) = split_readings(data);
    assert_eq!(values.len(), 1);
    assert_eq!(values[0].delivery_from, 1000);
    assert_eq!(bids.len(), 2, "each bid level becomes one observation");
    assert_eq!(bids[0].delivery_from, 3000);
    assert_eq!(bids[0].bid.rank, 1);
    assert_eq!(bids[1].bid.rank, 2);
}
