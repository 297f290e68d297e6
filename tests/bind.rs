use reo::universe::{Universe, UniverseError};

fn add_next(uni: &mut Universe) -> Result<u32, UniverseError> {
    let v = uni.next_v().expect("a vertex id is left");
    uni.add(v)?;
    Ok(v)
}

fn bind_next(uni: &mut Universe, v1: u32, v2: u32, a: &str) -> Result<(), UniverseError> {
    let e = uni.next_e().expect("an edge id is left");
    uni.bind(e, v1, v2, a)
}

#[test]
fn binds_simple_vertices() -> Result<(), UniverseError> {
    let mut uni = Universe::empty();
    let v1 = add_next(&mut uni)?;
    let v2 = add_next(&mut uni)?;
    let k = "hello";
    bind_next(&mut uni, v1, v2, k)?;
    assert!(uni.inconsistencies().is_empty());
    assert_eq!(v2, uni.find(v1, k)?);
    assert_eq!(v1, uni.find(v2, "ρ")?);
    assert_eq!(v1, uni.find(v2, "σ")?);
    Ok(())
}

#[test]
fn pre_defined_ids() -> Result<(), UniverseError> {
    let mut uni = Universe::empty();
    uni.add(1)?;
    uni.add(2)?;
    let k = "a-привет";
    bind_next(&mut uni, 1, 2, k)?;
    assert!(uni.inconsistencies().is_empty());
    assert_eq!(2, uni.find(1, k)?);
    Ok(())
}

#[test]
fn binds_two_names() -> Result<(), UniverseError> {
    let mut uni = Universe::empty();
    let v1 = add_next(&mut uni)?;
    let v2 = add_next(&mut uni)?;
    bind_next(&mut uni, v1, v2, "first")?;
    bind_next(&mut uni, v1, v2, "second")?;
    assert!(uni.inconsistencies().is_empty());
    assert_eq!(v2, uni.find(v1, "first")?);
    Ok(())
}

#[test]
fn overwrites_edge() -> Result<(), UniverseError> {
    let mut uni = Universe::empty();
    let v1 = add_next(&mut uni)?;
    let v2 = add_next(&mut uni)?;
    let label = "hello";
    bind_next(&mut uni, v1, v2, label)?;
    let v3 = add_next(&mut uni)?;
    bind_next(&mut uni, v1, v3, label)?;
    assert!(uni.inconsistencies().is_empty());
    assert_eq!(v3, uni.find(v1, label)?);
    Ok(())
}

#[test]
fn binds_to_root() -> Result<(), UniverseError> {
    let mut uni = Universe::empty();
    uni.add(0)?;
    let v1 = add_next(&mut uni)?;
    bind_next(&mut uni, 0, v1, "x")?;
    assert!(uni.inconsistencies().is_empty());
    assert!(uni.edge(0, "ρ").is_none());
    assert!(uni.edge(0, "σ").is_none());
    Ok(())
}
