use zippered::zipper::Step::{Back, Down, Left, Right, Up};
use zippered::zipper::{Step, ToZipper, Zippable, ZipperErr};

#[derive(Debug, Clone, PartialEq, Eq)]
enum Tree {
    Node(usize),
    Branch(Vec<Tree>),
}

impl Zippable for Tree {
    fn children(&self) -> Vec<Self> {
        match self {
            Tree::Node(_) => Vec::new(),
            Tree::Branch(branch) => branch.clone(),
        }
    }
}

#[test]
fn tree_down() -> Result<(), ZipperErr> {
    let tree = Tree::Branch(vec![Tree::Node(1), Tree::Node(2)]);

    let zipped = tree.zipper().down()?;
    let result = zipped.node.clone();

    assert_eq!(result, Tree::Node(1));
    assert_eq!(zipped.path(), vec![Down]);
    assert_eq!(zipped.journey(), vec![Down]);
    assert_eq!(result, tree.zipper().travel(zipped.path())?.node);
    assert_eq!(result, tree.zipper().travel(zipped.journey())?.node);

    Ok(())
}

#[test]
fn tree_down_down() -> Result<(), ZipperErr> {
    let tree = Tree::Branch(vec![Tree::Branch(vec![Tree::Node(1)]), Tree::Node(2)]);

    let zipped = tree.zipper().down()?.down()?;
    let result = zipped.node.clone();

    assert_eq!(result, Tree::Node(1));
    assert_eq!(zipped.path(), vec![Down, Down]);
    assert_eq!(zipped.journey(), vec![Down, Down]);
    assert_eq!(result, tree.zipper().travel(zipped.path())?.node);
    assert_eq!(result, tree.zipper().travel(zipped.journey())?.node);

    Ok(())
}

#[test]
fn tree_down_fail() -> Result<(), ZipperErr> {
    let tree = Tree::Branch(vec![]);

    let result = tree.zipper().down();

    assert!(result.is_err());
    Ok(())
}

#[test]
fn down_fail2() -> Result<(), ZipperErr> {
    let tree = Tree::Node(0);

    let result = tree.zipper().down();

    assert!(result.is_err());
    Ok(())
}

#[test]
fn tree_down_up() -> Result<(), ZipperErr> {
    let tree = Tree::Branch(vec![Tree::Branch(vec![Tree::Node(1)]), Tree::Node(2)]);

    let zipped = tree.zipper().down()?.up()?;
    let result = zipped.node.clone();

    assert_eq!(result, tree);
    assert_eq!(zipped.path(), vec![]);
    assert_eq!(zipped.journey(), vec![Down, Up]);
    assert_eq!(result, tree.zipper().travel(zipped.path())?.node);
    assert_eq!(result, tree.zipper().travel(zipped.journey())?.node);

    Ok(())
}

#[test]
fn down_back() -> Result<(), ZipperErr> {
    let tree = Tree::Branch(vec![Tree::Branch(vec![Tree::Node(1)]), Tree::Node(2)]);

    let zipped = tree.zipper().down()?.back()?;
    let result = zipped.node.clone();

    assert_eq!(result, tree);
    assert_eq!(zipped.path(), vec![]);
    assert_eq!(zipped.journey(), vec![Down, Back]);
    assert_eq!(result, tree.zipper().travel(zipped.path())?.node);
    assert_eq!(result, tree.zipper().travel(zipped.journey())?.node);

    Ok(())
}

#[test]
fn tree_down_down_up() -> Result<(), ZipperErr> {
    let tree = Tree::Branch(vec![Tree::Branch(vec![Tree::Node(1)]), Tree::Node(2)]);

    let zipped = tree.zipper().down()?.down()?.up()?;
    let result = zipped.node.clone();

    assert_eq!(result, Tree::Branch(vec![Tree::Node(1)]));
    assert_eq!(zipped.path(), vec![Down]);
    assert_eq!(
        zipped.journey(),
        vec![Down, Down, Up]
    );
    assert_eq!(result, tree.zipper().travel(zipped.path())?.node);
    assert_eq!(result, tree.zipper().travel(zipped.journey())?.node);

    Ok(())
}

#[test]
fn down_down_back() -> Result<(), ZipperErr> {
    let tree = Tree::Branch(vec![Tree::Branch(vec![Tree::Node(1)]), Tree::Node(2)]);

    let zipped = tree.zipper().down()?.down()?.back()?;
    let result = zipped.node.clone();

    assert_eq!(result, Tree::Branch(vec![Tree::Node(1)]));
    assert_eq!(zipped.path(), vec![Down]);
    assert_eq!(
        zipped.journey(),
        vec![Down, Down, Back]
    );
    assert_eq!(result, tree.zipper().travel(zipped.path())?.node);
    assert_eq!(result, tree.zipper().travel(zipped.journey())?.node);

    Ok(())
}

#[test]
fn tree_down_down_up_up() -> Result<(), ZipperErr> {
    let tree = Tree::Branch(vec![Tree::Branch(vec![Tree::Node(1)]), Tree::Node(2)]);

    let zipped = tree.zipper().down()?.down()?.up()?.up()?;
    let result = zipped.node.clone();

    assert_eq!(result, tree);
    assert_eq!(zipped.path(), vec![]);
    assert_eq!(
        zipped.journey(),
        vec![Down, Down, Up, Up]
    );
    assert_eq!(result, tree.zipper().travel(zipped.path())?.node);
    assert_eq!(result, tree.zipper().travel(zipped.journey())?.node);

    Ok(())
}

#[test]
fn tree_down_right() -> Result<(), ZipperErr> {
    let tree = Tree::Branch(vec![Tree::Branch(vec![Tree::Node(1)]), Tree::Node(2)]);

    let zipped = tree.zipper().down()?.right()?;
    let result = zipped.node.clone();

    assert_eq!(result, Tree::Node(2));
    assert_eq!(zipped.path(), vec![Down, Right]);
    assert_eq!(zipped.journey(), vec![Down, Right]);
    assert_eq!(result, tree.zipper().travel(zipped.path())?.node);
    assert_eq!(result, tree.zipper().travel(zipped.journey())?.node);

    Ok(())
}

#[test]
fn tree_down_right_up() -> Result<(), ZipperErr> {
    let tree = Tree::Branch(vec![Tree::Branch(vec![Tree::Node(1)]), Tree::Node(2)]);

    let zipped = tree.zipper().down()?.right()?.up()?;
    let result = zipped.node.clone();

    assert_eq!(result, tree);
    assert_eq!(zipped.path(), vec![]);
    assert_eq!(
        zipped.journey(),
        vec![Down, Right, Up]
    );
    assert_eq!(result, tree.zipper().travel(zipped.path())?.node);
    assert_eq!(result, tree.zipper().travel(zipped.journey())?.node);

    Ok(())
}

#[test]
fn tree_down_right_fail() -> Result<(), ZipperErr> {
    let tree = Tree::Branch(vec![Tree::Branch(vec![Tree::Node(1)])]);

    let result = tree.zipper().down()?.right();

    assert!(result.is_err());
    Ok(())
}

#[test]
fn tree_down_right_left() -> Result<(), ZipperErr> {
    let tree = Tree::Branch(vec![Tree::Branch(vec![Tree::Node(1)]), Tree::Node(2)]);

    let zipped = tree.zipper().down()?.right()?.left()?;
    let result = zipped.node.clone();

    assert_eq!(result, Tree::Branch(vec![Tree::Node(1)]));
    assert_eq!(zipped.path(), vec![Down]);
    assert_eq!(
        zipped.journey(),
        vec![Down, Right, Left]
    );
    assert_eq!(result, tree.zipper().travel(zipped.path())?.node);
    assert_eq!(result, tree.zipper().travel(zipped.journey())?.node);

    Ok(())
}

#[test]
fn down_right_back() -> Result<(), ZipperErr> {
    let tree = Tree::Branch(vec![Tree::Branch(vec![Tree::Node(1)]), Tree::Node(2)]);

    let zipped = tree.zipper().down()?.right()?.back()?;
    let result = zipped.node.clone();

    assert_eq!(result, Tree::Branch(vec![Tree::Node(1)]));
    assert_eq!(zipped.path(), vec![Down]);
    assert_eq!(
        zipped.journey(),
        vec![Down, Right, Back]
    );
    assert_eq!(result, tree.zipper().travel(zipped.path())?.node);
    assert_eq!(result, tree.zipper().travel(zipped.journey())?.node);

    Ok(())
}

#[test]
fn tree_left_fail() -> Result<(), ZipperErr> {
    let tree = Tree::Branch(vec![Tree::Branch(vec![Tree::Node(1)]), Tree::Node(2)]);

    let result = tree.zipper().left();

    assert!(result.is_err());
    Ok(())
}

#[test]
fn up_fail() -> Result<(), ZipperErr> {
    let tree = Tree::Branch(vec![Tree::Branch(vec![Tree::Node(1)]), Tree::Node(2)]);

    let result = tree.zipper().up();

    assert!(result.is_err());
    Ok(())
}

#[test]
fn back_fail() -> Result<(), ZipperErr> {
    let tree = Tree::Branch(vec![Tree::Branch(vec![Tree::Node(1)]), Tree::Node(2)]);

    let result = tree.zipper().back();

    assert!(result.is_err());
    Ok(())
}

#[test]
fn tree_down_left_fail() -> Result<(), ZipperErr> {
    let tree = Tree::Branch(vec![Tree::Branch(vec![Tree::Node(1)]), Tree::Node(2)]);

    let result = tree.zipper().down()?.left();

    assert!(result.is_err());
    Ok(())
}

#[test]
fn down_down_up_up_down_down() -> Result<(), ZipperErr> {
    let tree = Tree::Branch(vec![Tree::Branch(vec![Tree::Node(1)]), Tree::Node(2)]);

    let zipped = tree.zipper().down()?.down()?.up()?.up()?.down()?.down()?;
    let result = zipped.node.clone();

    assert_eq!(result, Tree::Node(1));
    assert_eq!(zipped.path(), vec![Down, Down]);
    assert_eq!(
        zipped.journey(),
        vec![Down, Down, Up, Up, Down, Down]
    );
    assert_eq!(result, tree.zipper().travel(zipped.path())?.node);
    assert_eq!(result, tree.zipper().travel(zipped.journey())?.node);

    Ok(())
}
