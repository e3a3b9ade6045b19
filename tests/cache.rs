use fortress_models::cache::Cache;
use fortress_models::identifier::Identifier;

fn key(path: &str) -> Identifier {
    Identifier::from_string(path)
}

#[test]
fn set_adds_value() {
    //ARRANGE
    let mut cache: Cache<Identifier, &str>;
    let key = key("1");

    let value = "a value";

    //ACT
    cache = Cache::new();
    cache.set(key.clone(), value);

    let returned = cache.get(&key);

    //ASSERT
    assert!(cache.len() == 1, "There should only be one element in the cache");
    assert!(returned.eq(&Some(&value)), "Should be the same value");
}

#[test]
fn get_returns_correct_values() {
    //ARRANGE
    let mut cache: Cache<Identifier, &str>;
    let parent = key("1");
    let child = key("1:2");

    let value1 = "a value";
    let value2 = "b value";
    //ACT
    cache = Cache::new();
    cache.set(parent.clone(), value1);
    cache.set(child.clone(), value2);

    let returned1 = cache.get(&parent);
    let returned2 = cache.get(&child);

    //ASSERT
    assert_eq!(returned1, Some(&value1));
    assert_eq!(returned2, Some(&value2));
}

#[test]
fn get_missing_entry_returns_none() {
    //ARRANGE
    let cache: Cache<Identifier, &str>;
    let key = key("1");

    let default_value = "some default";

    //ACT
    cache = Cache::new_with_default(default_value);
    let returned = cache.get(&key);

    //ASSERT
    assert_eq!(returned, None);
}

#[test]
fn get_recursive_parent_present_returns_value() {
    let mut cache: Cache<Identifier, &str>;
    let parent = key("1");
    let child1 = key("1:2");
    let child2 = key("1:2:3");
    let child3 = key("1:2:3:4");
    let other = key("5");

    let value = "parent value";
    let default_value = "default value";
    let other_value = "other value";

    //ACT
    cache = Cache::new_with_default(default_value);
    cache.set(parent.clone(), value);
    cache.set(child3.clone(), other_value);

    let result1 = cache.get_recursive(&child1);
    let result2 = cache.get_recursive(&child2);
    let result3 = cache.get_recursive(&child3);
    let result4 = cache.get_recursive(&other);

    //ASSERT
    assert_eq!(result1, Some(&value));
    assert_eq!(result2, Some(&value));
    assert_eq!(result3, Some(&other_value));
    assert_eq!(result4, Some(&default_value));
}

#[test]
fn get_or_initialize_with_parent_given_missing_entries_initializes_child() {
    let mut cache: Cache<Identifier, &str>;
    let parent = key("1");
    let child1 = key("1:2");
    let child2 = key("1:2:3");
    let child3 = key("1:2:3:4");

    let default_value = "default value";

    //ACT
    cache = Cache::new_with_default(default_value);

    //ASSERT
    assert_eq!(cache.len(), 0);
    {
        let r1 = cache.get_or_initialize_with_parent(&child3);
        assert_eq!(r1, Err(Some(&default_value)));
    }
    assert_eq!(cache.len(), 1);
    {
        let r2 = cache.get_or_initialize_with_parent(&child2);
        assert_eq!(r2, Err(Some(&default_value)));
    }
    assert_eq!(cache.len(), 2);
    {
        let r1 = cache.get_or_initialize_with_parent(&child1);
        assert_eq!(r1, Err(Some(&default_value)));
    }
    assert_eq!(cache.len(), 3);
    {
        let r1 = cache.get_or_initialize_with_parent(&parent);
        assert_eq!(r1, Err(Some(&default_value)));
    }
    assert_eq!(cache.len(), 4);
}

#[test]
fn new_creates_new_with_none_default() {
    //ARRANGE
    let cache: Cache<Identifier, &str>;

    //ACT
    cache = Cache::<Identifier, &'static str>::new();

    //ASSERT
    assert!(cache.len() == 0, "Map should be empty");
    assert!(cache.default_value().is_none(), "Default should be set to none")
}

#[test]
fn new_with_default_creates_new_with_the_provided_default() {
    //ARRANGE
    let cache: Cache<Identifier, &str>;
    let default_value = "this is the default";

    //ACT
    cache = Cache::<Identifier, &'static str>::new_with_default(default_value);

    //ASSERT
    assert!(cache.len() == 0, "Map should be empty");
    assert_eq!(
        cache.default_value().copied(),
        Some("this is the default"),
        "Default should be set to the provided value"
    );
}

#[test]
fn set_then_get_finds_value_and_replaces_earlier_one() {
    let mut cache: Cache<Identifier, u32> = Cache::new();
    let k = key("wood:bark");
    assert_eq!(cache.set(k.clone(), 7), None);
    assert_eq!(cache.get(&k), Some(&7));
    assert_eq!(cache.set(k.clone(), 9), Some(7));
    assert_eq!(cache.get(&k), Some(&9));
    assert_eq!(cache.len(), 1);
    assert_eq!(cache.get(&key("WOOD:BARK")), Some(&9));
}

#[test]
fn get_recursive_prefers_nearest_ancestor_and_root() {
    let mut cache: Cache<Identifier, u32> = Cache::new();
    assert_eq!(cache.get_recursive(&key("a:b")), None);
    cache.set_default(1);
    assert_eq!(cache.get_recursive(&key("a:b")), Some(&1));
    cache.set(Identifier::from_segments(Vec::new()), 2);
    assert_eq!(cache.get_recursive(&key("a:b")), Some(&2));
    cache.set(key("a"), 3);
    cache.set(key("a:b:c"), 4);
    assert_eq!(cache.get_recursive(&key("a:b")), Some(&3));
    assert_eq!(cache.get_recursive(&key("a:b:c:d")), Some(&4));
    assert_eq!(cache.get(&key("a:b")), None);
}

#[test]
fn initialize_twice_is_ok_the_second_time() {
    let mut cache: Cache<Identifier, u32> = Cache::new_with_default(0);
    cache.set(key("wood"), 5);
    let k = key("wood:bark");
    assert_eq!(cache.get_or_initialize_with_parent(&k), Err(Some(&5)));
    assert_eq!(cache.len(), 2);
    assert_eq!(cache.get_or_initialize_with_parent(&k), Ok(Some(&5)));
    assert_eq!(cache.len(), 2);
}

#[test]
fn initialize_with_closure_runs_only_when_absent() {
    let mut cache: Cache<Identifier, u32> = Cache::new();
    assert_eq!(*cache.get_or_initialize_with(key("x"), || 11), 11);
    assert_eq!(*cache.get_or_initialize_with(key("x"), || 12), 11);
    assert_eq!(cache.len(), 1);
}

#[test]
fn set_default_returns_previous_default() {
    let mut cache: Cache<Identifier, u32> = Cache::new_with_default(3);
    assert_eq!(cache.set_default(4), Some(3));
    assert_eq!(cache.default_value(), Some(&4));
}
