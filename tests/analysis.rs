use vgsales::aggregate::{aggregate, Mode};
use vgsales::classify::{genre_predictor, Confusion};
use vgsales::rank::{rank_top, Score};
use vgsales::record::{Category, Game};
use vgsales::report::{
    analyze_category, average_sales_by_category, top_games_by_sales,
    yearly_bestseller_trend_with_bar, YearCount,
};

fn game(name: &str, year: Option<u32>, genre: &str, sales: Option<i64>) -> Game {
    Game {
        name: name.to_string(),
        platform: "PS4".to_string(),
        year,
        genre: genre.to_string(),
        publisher: "Ubisoft".to_string(),
        global_sales: sales,
    }
}

fn sample_games() -> Vec<Game> {
    vec![
        Game {
            name: "Game A".to_string(),
            platform: "PS4".to_string(),
            year: Some(2018),
            genre: "Shooter".to_string(),
            publisher: "Ubisoft".to_string(),
            global_sales: Some(1500),
        },
        Game {
            name: "Game B".to_string(),
            platform: "Xbox".to_string(),
            year: Some(2016),
            genre: "Sports".to_string(),
            publisher: "EA".to_string(),
            global_sales: Some(800),
        },
        Game {
            name: "Game C".to_string(),
            platform: "PC".to_string(),
            year: Some(2010),
            genre: "Shooter".to_string(),
            publisher: "Activision".to_string(),
            global_sales: Some(900),
        },
    ]
}

#[test]
fn test_genre_predictor_accuracy() {
    let games = sample_games();
    genre_predictor(&games, "Shooter");
}

#[test]
fn test_average_sales_by_category_runs() {
    let games = sample_games();
    average_sales_by_category(&games, Category::Genre);
}

#[test]
fn test_top_games_by_sales_ordering() {
    let games = sample_games();
    top_games_by_sales(&games, 2);
}

#[test]
fn test_analyze_category_does_not_panic() {
    let games = sample_games();
    analyze_category(&games, Category::Publisher);
}

#[test]
fn shooter_prediction_confusion_matrix() {
    let games = sample_games();
    let c = genre_predictor(&games, "Shooter");
    assert_eq!(c, Confusion { tp: 1, fp: 1, fn_: 0, tn: 1 });
    assert_eq!(c.accuracy_basis_points(), Some(6667));
}

#[test]
fn genre_match_is_case_sensitive() {
    let games = sample_games();
    let c = genre_predictor(&games, "shooter");
    assert_eq!(c, Confusion { tp: 0, fp: 0, fn_: 1, tn: 2 });
    assert_eq!(c.accuracy_basis_points(), Some(6667));
}

#[test]
fn empty_collection_has_no_accuracy() {
    let c = genre_predictor(&[], "Shooter");
    assert_eq!(c, Confusion { tp: 0, fp: 0, fn_: 0, tn: 0 });
    assert_eq!(c.accuracy_basis_points(), None);
}

#[test]
fn accuracy_bounds() {
    let all = Confusion { tp: 3, fp: 0, fn_: 0, tn: 4 };
    assert_eq!(all.accuracy_basis_points(), Some(10000));
    let none = Confusion { tp: 0, fp: 5, fn_: 2, tn: 0 };
    assert_eq!(none.accuracy_basis_points(), Some(0));
    let third = Confusion { tp: 1, fp: 2, fn_: 0, tn: 0 };
    assert_eq!(third.accuracy_basis_points(), Some(3333));
}

#[test]
fn confusion_counts_add_up_to_records() {
    let mut games = sample_games();
    games.push(game("Game D", None, "Puzzle", None));
    games.push(game("Game E", Some(2001), "Puzzle", Some(4000)));
    let c = genre_predictor(&games, "Puzzle");
    assert_eq!(c.tp + c.fp + c.fn_ + c.tn, 5);
    assert_eq!(c, Confusion { tp: 1, fp: 1, fn_: 1, tn: 2 });
}

#[test]
fn average_sales_by_genre_example() {
    let games = sample_games();
    let r = average_sales_by_category(&games, Category::Genre);
    assert_eq!(r.unique, 2);
    assert_eq!(r.top.len(), 2);
    assert_eq!(r.top[0].key, "Shooter");
    assert_eq!((r.top[0].count, r.top[0].metric), (2, 2400));
    assert_eq!(r.top[1].key, "Sports");
    assert_eq!((r.top[1].count, r.top[1].metric), (1, 800));
}

#[test]
fn average_ranking_uses_exact_fractions() {
    let games = vec![
        game("a", None, "X", Some(1000)),
        game("b", None, "X", Some(1000)),
        game("c", None, "X", Some(1001)),
        game("d", None, "Y", Some(1001)),
        game("e", None, "Z", None),
    ];
    let r = average_sales_by_category(&games, Category::Genre);
    assert_eq!(r.unique, 2);
    assert_eq!(r.top[0].key, "Y");
    assert_eq!(r.top[1].key, "X");
    assert_eq!((r.top[1].count, r.top[1].metric), (3, 3001));
}

#[test]
fn top_two_by_sales_example() {
    let games = sample_games();
    let r = top_games_by_sales(&games, 2);
    assert_eq!(r, vec![("Game A".to_string(), 1500), ("Game C".to_string(), 900)]);
}

#[test]
fn top_sales_skip_missing_and_cap_at_available() {
    let mut games = sample_games();
    games.push(game("Game D", None, "Puzzle", None));
    let r = top_games_by_sales(&games, 10);
    assert_eq!(r.len(), 3);
    assert_eq!(r[2], ("Game B".to_string(), 800));
    assert!(top_games_by_sales(&games, 0).is_empty());
}

#[test]
fn bestseller_boundary() {
    assert!(!game("a", None, "X", Some(1000)).is_bestseller());
    assert!(game("a", None, "X", Some(1001)).is_bestseller());
    assert!(!game("a", None, "X", None).is_bestseller());
    assert!(!game("a", None, "X", Some(-5)).is_bestseller());
}

#[test]
fn category_hits_by_publisher() {
    let mut games = sample_games();
    games.push(game("Game D", None, "Puzzle", Some(2000)));
    let r = analyze_category(&games, Category::Publisher);
    assert_eq!(r.unique, 3);
    assert_eq!(r.top.len(), 3);
    assert_eq!(r.top[0].key, "Ubisoft");
    assert_eq!((r.top[0].count, r.top[0].metric), (2, 2));
    for g in &r.top[1..] {
        assert_eq!((g.count, g.metric), (1, 0));
    }
}

#[test]
fn category_hits_keep_ten_of_many() {
    let mut games = Vec::new();
    for i in 0..15u32 {
        for _ in 0..i {
            games.push(game("g", None, &format!("G{}", i), Some(1500)));
        }
        games.push(game("g", None, &format!("G{}", i), Some(100)));
    }
    let r = analyze_category(&games, Category::Genre);
    assert_eq!(r.unique, 15);
    assert_eq!(r.top.len(), 10);
    for (k, g) in r.top.iter().enumerate() {
        assert_eq!(g.key, format!("G{}", 14 - k));
        assert_eq!(g.metric, 14 - k as i128);
        assert_eq!(g.count as usize, 15 - k);
    }
}

#[test]
fn year_labels_and_unknown() {
    let games = vec![
        game("a", Some(2018), "X", Some(1500)),
        game("b", None, "X", Some(500)),
        game("c", Some(2018), "X", None),
    ];
    assert_eq!(games[0].key_of(Category::Year), "2018");
    assert_eq!(games[1].key_of(Category::Year), "Unknown");
    let r = analyze_category(&games, Category::Year);
    assert_eq!(r.unique, 2);
    assert_eq!(r.top[0].key, "2018");
    assert_eq!((r.top[0].count, r.top[0].metric), (2, 1));
    assert_eq!(r.top[1].key, "Unknown");
}

#[test]
fn hit_groups_count_every_record() {
    let mut games = sample_games();
    games.push(game("Game D", None, "Puzzle", None));
    let groups = aggregate(&games, Category::Genre, Mode::Hits);
    let count: u32 = groups.iter().map(|g| g.count).sum();
    let hits: i128 = groups.iter().map(|g| g.metric).sum();
    assert_eq!(count, 4);
    assert_eq!(hits, 1);
    assert_eq!(groups[2].key, "Puzzle");
}

#[test]
fn sales_groups_skip_missing_sales() {
    let mut games = sample_games();
    games.push(game("Game D", None, "Puzzle", None));
    let groups = aggregate(&games, Category::Genre, Mode::Sales);
    let count: u32 = groups.iter().map(|g| g.count).sum();
    let sum: i128 = groups.iter().map(|g| g.metric).sum();
    assert_eq!(groups.len(), 2);
    assert_eq!(count, 3);
    assert_eq!(sum, 3200);
}

#[test]
fn rank_top_edges() {
    let s = vec![
        Score { num: 3, den: 1 },
        Score { num: 7, den: 2 },
        Score { num: -1, den: 1 },
        Score { num: 10, den: 3 },
    ];
    assert!(rank_top(&s, 0).is_empty());
    assert_eq!(rank_top(&s, 2), vec![1, 3]);
    assert_eq!(rank_top(&s, 9), vec![1, 3, 0, 2]);
    assert!(rank_top(&Vec::new(), 3).is_empty());
}

#[test]
fn yearly_trend_ascending_with_capped_bar() {
    let mut games = Vec::new();
    for _ in 0..120 {
        games.push(game("a", Some(2005), "X", Some(2000)));
    }
    for _ in 0..3 {
        games.push(game("b", Some(1999), "X", Some(1200)));
    }
    games.push(game("c", Some(2001), "X", Some(1000)));
    games.push(game("d", None, "X", Some(5000)));
    games.push(game("e", Some(2001), "X", None));
    let r = yearly_bestseller_trend_with_bar(&games);
    assert_eq!(
        r,
        vec![
            YearCount { year: 1999, count: 3, bar: 1 },
            YearCount { year: 2005, count: 120, bar: 50 },
        ]
    );
}

#[test]
fn reports_repeat_identically() {
    let mut games = sample_games();
    games.push(game("Game D", Some(2010), "Sports", Some(900)));
    let a = average_sales_by_category(&games, Category::Genre);
    let b = average_sales_by_category(&games, Category::Genre);
    let ka: Vec<_> = a.top.iter().map(|g| (g.key.clone(), g.count, g.metric)).collect();
    let kb: Vec<_> = b.top.iter().map(|g| (g.key.clone(), g.count, g.metric)).collect();
    assert_eq!(ka, kb);
    assert_eq!(top_games_by_sales(&games, 4), top_games_by_sales(&games, 4));
    assert_eq!(yearly_bestseller_trend_with_bar(&games), yearly_bestseller_trend_with_bar(&games));
    assert_eq!(genre_predictor(&games, "Sports"), genre_predictor(&games, "Sports"));
}
